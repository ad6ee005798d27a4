//! The state of one type-check session and what every family of types
//! builds on: fresh inference variables, the equation of type skeletons,
//! and the bookkeeping of permission facts.

use crate::intern::{lemma_extension, TyInterners};
use crate::ops::{Op, OpIndex, Scheduler};
use crate::results::{Error, TypeCheckResults};
use crate::ty::{
    Base, BaseData, BaseKind, Entity, Generic, Generics, InferVar, Node, Perm, PermData, PermKind,
    PermVar, Ty,
};
use crate::unify::UnificationTable;
use vstd::prelude::*;

verus! {

/// The types that the checker has at hand from the start.
#[derive(Clone, Copy, Debug, PartialEq, Eq, Structural)]
pub struct Primitives {
    pub boolean: Base,
    pub integer: Base,
    pub unsigned: Base,
    pub unit: Base,
    /// The sentinel that stands in where checking has failed.
    pub error: Base,
    /// The permission of types whose permission is not looked at.
    pub erased: Perm,
    /// The permission of a value that is owned.
    pub own: Perm,
    /// The empty list of generic arguments.
    pub no_generics: Generics,
}

/// What a universe was created for.
#[derive(Clone, Copy, Debug, PartialEq, Eq, Structural)]
pub enum UniverseBinder {
    Root,
    FromItem(Entity),
}

/// A type skeleton, looked at as far as it is known now.
#[derive(Clone, Copy, Debug, PartialEq, Eq, Structural)]
pub enum Shallow {
    /// An inference variable whose class is not resolved yet.
    Unresolved(InferVar),
    /// A known skeleton.
    Known { base: Base, kind: BaseKind, generics: Generics },
    /// A generic parameter.
    Rigid(Base),
}

/// The state of one type-check session.
pub struct TypeChecker {
    /// The intern tables of the session.
    pub tables: TyInterners,
    /// The unification table.
    pub unify: UnificationTable,
    /// The suspended operations.
    pub ops: Scheduler,
    /// The results so far.
    pub results: TypeCheckResults,
    /// The type of each local variable that has one.
    pub variables: Vec<Option<Ty>>,
    /// The edges `(Pa, Pb, cause)` between permissions that always count.
    pub perm_less: Vec<(Perm, Perm, Node)>,
    /// The edges `(Pc, Pa, Pb, cause)` that count once `Pc` is at least
    /// borrowed.
    pub perm_less_if: Vec<(Perm, Perm, Perm, Node)>,
    /// The index of the next permission variable.
    pub next_perm_var: u32,
    /// The types at hand.
    pub primitives: Primitives,
    /// The function that is checked.
    pub fn_entity: Entity,
    /// What each universe was created for; the root universe comes first.
    pub universe_binders: Vec<UniverseBinder>,
    /// The released operations that were run, in the order in which they
    /// were run.
    pub ran: Ghost<Seq<Op>>,
}

impl TypeChecker {
    /// Both keys of `ty` are keys of the session's tables.
    pub open spec fn has_ty(&self, ty: Ty) -> bool {
        self.tables@.has_ty(ty)
    }

    /// What the skeleton `base` is known to be: itself, unless it is an
    /// inference variable, which is known as far as its class is resolved.
    pub open spec fn known(&self, base: Base) -> Option<Base> {
        match self.tables@.bases[base.index as int] {
            BaseData::Inferred(v) => self.unify.value_of(v),
            _ => Some(base),
        }
    }

    /// Whether two skeletons have been made one: they are known alike,
    /// and where they are not known yet, their variables are in one class.
    pub open spec fn agree(&self, b1: Base, b2: Base) -> bool {
        &&& self.known(b1) == self.known(b2)
        &&& (self.tables@.bases[b1.index as int] is Inferred
            && self.tables@.bases[b2.index as int] is Inferred && self.known(b1) is None)
            ==> self.unify.same_class(
            self.tables@.bases[b1.index as int]->Inferred_0,
            self.tables@.bases[b2.index as int]->Inferred_0,
        )
    }

    /// Whether two skeletons are known, and known to differ.
    pub open spec fn clash(&self, b1: Base, b2: Base) -> bool {
        self.known(b1) is Some && self.known(b2) is Some && self.known(b1) != self.known(b2)
    }

    /// Whether the demand that the skeleton `value` be one with the
    /// skeleton `wanted` is settled: the two have been made one; or they
    /// clash, and an error is recorded at `at`, unless one of them is the
    /// sentinel.
    pub open spec fn met(&self, value: Base, wanted: Base, at: Node) -> bool {
        ||| self.agree(value, wanted)
        ||| self.clash(value, wanted) && (self.results.errors().contains(Error { location: at })
            || self.known(value) == Some(self.primitives.error) || self.known(wanted) == Some(
            self.primitives.error,
        ))
    }

    /// Every inference variable that the tables mention is a variable of
    /// the unification table.
    pub open spec fn vars_tracked(&self) -> bool {
        forall|b: int|
            0 <= b < self.tables@.bases.len() ==> (#[trigger] self.tables@.bases[b]
                matches BaseData::Inferred(v) ==> self.unify.has(v))
    }

    /// Every value in the unification table is a skeleton of the tables
    /// that is no inference variable.
    pub open spec fn values_ok(&self) -> bool {
        forall|v: InferVar|
            self.unify.has(v) ==> (#[trigger] self.unify.value_of(v) matches Some(b) ==> b.index
                < self.tables@.bases.len() && !(self.tables@.bases[b.index as int] is Inferred))
    }

    /// Every recorded type and every type of a variable is a type of the
    /// tables.
    pub open spec fn types_ok(&self) -> bool {
        &&& forall|n: u32| #[trigger]
            self.results.types().contains_key(n) ==> self.has_ty(self.results.types()[n])
        &&& forall|i: int|
            0 <= i < self.variables@.len() ==> (#[trigger] self.variables@[i] matches Some(ty)
                ==> self.has_ty(ty))
    }

    /// Every suspended operation speaks of types of the tables.
    pub open spec fn ops_ok(&self) -> bool {
        forall|at: OpIndex| #[trigger]
            self.ops.pending().contains_key(at) ==> (self.ops.pending()[at]
                matches Op::FieldAccess { owner, target, .. } ==> self.has_ty(owner)
                && self.has_ty(target))
    }

    /// Every permission in a fact is a key of the tables.
    pub open spec fn facts_ok(&self) -> bool {
        crate::kind_inference::facts_in_range(
            self.tables@.perms.len(),
            self.perm_less@,
            self.perm_less_if@,
        )
    }

    /// Every permission variable that the tables mention was handed out by
    /// this session.
    pub open spec fn perms_tracked(&self) -> bool {
        forall|p: int|
            0 <= p < self.tables@.perms.len() ==> (#[trigger] self.tables@.perms[p]
                matches PermData::Inferred(v) ==> v.index < self.next_perm_var)
    }

    /// The types at hand are what they are said to be.
    pub open spec fn primitives_ok(&self) -> bool {
        let t = self.tables@;
        let p = self.primitives;
        &&& p.boolean.index < t.bases.len()
        &&& p.integer.index < t.bases.len()
        &&& p.unsigned.index < t.bases.len()
        &&& p.unit.index < t.bases.len()
        &&& p.error.index < t.bases.len()
        &&& p.erased.index < t.perms.len()
        &&& p.own.index < t.perms.len()
        &&& p.no_generics.index < t.generics.len()
        &&& t.generics[p.no_generics.index as int] == Seq::<Generic>::empty()
        &&& t.bases[p.error.index as int] == (BaseData::Known {
            kind: BaseKind::Error,
            generics: p.no_generics,
        })
        &&& t.bases[p.boolean.index as int] is Known
        &&& t.bases[p.integer.index as int] is Known
        &&& t.bases[p.unsigned.index as int] is Known
        &&& t.bases[p.unit.index as int] is Known
        &&& t.perms[p.erased.index as int] == PermData::Known(PermKind::Share)
        &&& t.perms[p.own.index as int] == PermData::Known(PermKind::Own)
    }

    /// The session is consistent.
    pub open spec fn wf(&self) -> bool {
        &&& self.tables.wf()
        &&& self.unify.wf()
        &&& self.ops.wf()
        &&& self.vars_tracked()
        &&& self.values_ok()
        &&& self.types_ok()
        &&& self.ops_ok()
        &&& self.facts_ok()
        &&& self.perms_tracked()
        &&& self.primitives_ok()
    }

    /// What the state after a step shares with the state before it: keys
    /// keep their meaning, variables stay, what was resolved stays
    /// resolved as it was and classes stay together, recorded types and
    /// the types of local variables stay, and errors and facts are only
    /// added.
    pub open spec fn grows(before: &TypeChecker, after: &TypeChecker) -> bool {
        &&& before.tables@.extended_by(after.tables@)
        &&& before.unify.len() <= after.unify.len()
        &&& forall|v: InferVar|
            before.unify.has(v) && before.unify.value_of(v) is Some
                ==> #[trigger] after.unify.value_of(
                v,
            ) == before.unify.value_of(v)
        &&& forall|v: InferVar, w: InferVar|
            before.unify.has(v) && before.unify.has(w) && before.unify.same_class(v, w)
                ==> #[trigger] after.unify.same_class(v, w)
        &&& before.results.types().submap_of(after.results.types())
        &&& before.results.errors().is_prefix_of(after.results.errors())
        &&& before.perm_less@.is_prefix_of(after.perm_less@)
        &&& before.perm_less_if@.is_prefix_of(after.perm_less_if@)
        &&& before.next_perm_var <= after.next_perm_var
        &&& before.ran@.is_prefix_of(after.ran@)
        &&& after.variables@.len() == before.variables@.len()
        &&& forall|i: int|
            0 <= i < before.variables@.len() && (#[trigger] before.variables@[i]) is Some
                ==> after.variables@[i] == before.variables@[i]
        &&& after.primitives == before.primitives
        &&& after.fn_entity == before.fn_entity
        &&& after.universe_binders@ == before.universe_binders@
    }

    /// A step that, besides, records no type, binds no variable and leaves
    /// the suspended operations alone.
    pub open spec fn quiet_step(before: &TypeChecker, after: &TypeChecker) -> bool {
        &&& Self::calm_step(before, after)
        &&& after.ops == before.ops
        &&& after.ran@ == before.ran@
    }

    /// Every operation that was released has been run, and the operations
    /// were run in the order of their release, each once.
    pub open spec fn in_step(&self) -> bool {
        self.ran@ == self.ops.fired_ops()
    }

    /// A step that records no type and binds no variable.
    pub open spec fn calm_step(before: &TypeChecker, after: &TypeChecker) -> bool {
        &&& Self::grows(before, after)
        &&& after.results.types() == before.results.types()
        &&& after.variables@ == before.variables@
    }

    /// The place that an operation reports its errors at.
    pub open spec fn op_cause(op: Op) -> Node {
        match op {
            Op::FieldAccess { cause, .. } => cause,
        }
    }

    /// Every error so far, and every error that a suspended operation may
    /// still report, is located at a node below `bound`.
    pub open spec fn located_within(&self, bound: nat) -> bool {
        &&& forall|k: int|
            0 <= k < self.results.errors().len()
                ==> (#[trigger] self.results.errors()[k]).location.index
                < bound
        &&& forall|at: OpIndex| #[trigger]
            self.ops.pending().contains_key(at) ==> Self::op_cause(self.ops.pending()[at]).index
                < bound
    }

    /// Operations run on time: every release went through a variable that
    /// is resolved, and an operation that is still suspended waits on a
    /// resolved variable only while the resolution is an event that was
    /// not looked at yet, in the table or in `extra`.
    pub open spec fn on_time_but(&self, extra: Seq<InferVar>) -> bool {
        &&& forall|k: int|
            0 <= k < self.ops.fired().len() ==> self.unify.has((#[trigger] self.ops.fired()[k]).var)
                && self.unify.value_of(self.ops.fired()[k].var) is Some
        &&& forall|at: OpIndex, v: InferVar|
            self.ops.pending().contains_key(at) && #[trigger] self.ops.waits()[at].contains(v)
                ==> self.unify.has(v) && (self.unify.value_of(v) is Some
                ==> self.unify.events().contains(v) || extra.contains(v))
    }

    /// Operations run on time, given the events of the table.
    pub open spec fn on_time(&self) -> bool {
        self.on_time_but(Seq::empty())
    }

    /// A step after which operations still run on time, whatever events
    /// are looked at elsewhere.
    pub open spec fn keeps_time(before: &TypeChecker, after: &TypeChecker) -> bool {
        forall|extra: Seq<InferVar>| #[trigger]
            before.on_time_but(extra) ==> after.on_time_but(extra)
    }

    /// A step that leaves the unification table and the suspended
    /// operations alone keeps the time.
    pub proof fn lemma_same_time(before: &TypeChecker, after: &TypeChecker)
        requires
            after.unify == before.unify,
            after.ops == before.ops,
        ensures
            Self::keeps_time(before, after),
    {
    }

    /// A step that only adds variables keeps the time.
    pub proof fn lemma_time_with_new_variables(before: &TypeChecker, after: &TypeChecker)
        requires
            after.ops == before.ops,
            before.unify.len() <= after.unify.len(),
            after.unify.events() == before.unify.events(),
            forall|w: InferVar|
                before.unify.has(w) ==> #[trigger] after.unify.value_of(w) == before.unify.value_of(
                    w,
                ),
        ensures
            Self::keeps_time(before, after),
    {
    }

    /// Steps that keep the time do so along a chain.
    pub proof fn lemma_keeps_time(a: &TypeChecker, b: &TypeChecker, c: &TypeChecker)
        requires
            Self::keeps_time(a, b),
            Self::keeps_time(b, c),
        ensures
            Self::keeps_time(a, c),
            Self::keeps_time(a, a),
    {
        assert forall|extra: Seq<InferVar>| #[trigger] a.on_time_but(extra) implies c.on_time_but(
            extra,
        ) by {
            assert(b.on_time_but(extra));
        }
    }

    /// Skeletons that have been made one stay one, and a skeleton that is
    /// known stays known as it is.
    pub proof fn lemma_agree_stays(before: &TypeChecker, after: &TypeChecker, b1: Base, b2: Base)
        requires
            before.wf(),
            after.wf(),
            Self::grows(before, after),
            b1.index < before.tables@.bases.len(),
            b2.index < before.tables@.bases.len(),
        ensures
            before.agree(b1, b2) ==> after.agree(b1, b2),
            before.known(b1) is Some ==> after.known(b1) == before.known(b1),
    {
        lemma_extension(before.tables@, after.tables@, after.tables@);
        assert(after.tables@.bases[b1.index as int] == before.tables@.bases[b1.index as int]);
        assert(after.tables@.bases[b2.index as int] == before.tables@.bases[b2.index as int]);
        if before.agree(b1, b2) {
            match (before.tables@.bases[b1.index as int], before.tables@.bases[b2.index as int]) {
                (BaseData::Inferred(v1), BaseData::Inferred(v2)) => {
                    if before.known(b1) is None {
                        assert(before.unify.same_class(v1, v2));
                        assert(after.unify.same_class(v1, v2));
                        after.unify.lemma_same_class_same_value(v1, v2);
                    }
                },
                _ => {},
            }
        }
    }

    /// A demand that is settled stays settled.
    pub proof fn lemma_met_stays(
        before: &TypeChecker,
        after: &TypeChecker,
        value: Base,
        wanted: Base,
        at: Node,
    )
        requires
            before.wf(),
            after.wf(),
            Self::grows(before, after),
            value.index < before.tables@.bases.len(),
            wanted.index < before.tables@.bases.len(),
            before.met(value, wanted, at),
        ensures
            after.met(value, wanted, at),
    {
        Self::lemma_agree_stays(before, after, value, wanted);
        Self::lemma_agree_stays(before, after, wanted, value);
        let e = Error { location: at };
        if before.results.errors().contains(e) {
            let k = choose|k: int|
                0 <= k < before.results.errors().len() && before.results.errors()[k] == e;
            assert(after.results.errors().subrange(0, before.results.errors().len() as int)[k]
                == after.results.errors()[k]);
            assert(after.results.errors()[k] == e);
        }
    }

    /// Steps go on along a chain.
    pub proof fn lemma_grows(a: &TypeChecker, b: &TypeChecker, c: &TypeChecker)
        requires
            Self::grows(a, b),
            Self::grows(b, c),
        ensures
            Self::grows(a, a),
            Self::grows(a, c),
            Self::quiet_step(a, a),
            Self::quiet_step(a, b) && Self::quiet_step(b, c) ==> Self::quiet_step(a, c),
            Self::calm_step(a, a),
            Self::calm_step(a, b) && Self::calm_step(b, c) ==> Self::calm_step(a, c),
    {
        lemma_extension(a.tables@, b.tables@, c.tables@);
        assert(a.results.errors() =~= a.results.errors().subrange(0,
            a.results.errors().len() as int));
        assert(a.perm_less@ =~= a.perm_less@.subrange(0, a.perm_less@.len() as int));
        assert(a.perm_less_if@ =~= a.perm_less_if@.subrange(0, a.perm_less_if@.len() as int));
        assert(a.ran@ =~= a.ran@.subrange(0, a.ran@.len() as int));
        assert(a.ran@ =~= c.ran@.subrange(0, a.ran@.len() as int)) by {
            assert forall|i: int| 0 <= i < a.ran@.len() implies a.ran@[i] == c.ran@[i] by {
                assert(a.ran@[i] == b.ran@.subrange(0, a.ran@.len() as int)[i]);
                assert(b.ran@[i] == c.ran@.subrange(0, b.ran@.len() as int)[i]);
            }
        }
        assert(a.results.errors() =~= c.results.errors().subrange(
            0,
            a.results.errors().len() as int,
        )) by {
            assert forall|i: int| 0 <= i < a.results.errors().len() implies a.results.errors()[i]
                == c.results.errors()[i] by {
                assert(a.results.errors()[i] == b.results.errors().subrange(
                    0,
                    a.results.errors().len() as int,
                )[i]);
                assert(b.results.errors()[i] == c.results.errors().subrange(
                    0,
                    b.results.errors().len() as int,
                )[i]);
            }
        }
        assert(a.perm_less@ =~= c.perm_less@.subrange(0, a.perm_less@.len() as int)) by {
            assert forall|i: int| 0 <= i < a.perm_less@.len() implies a.perm_less@[i]
                == c.perm_less@[i] by {
                assert(a.perm_less@[i] == b.perm_less@.subrange(0, a.perm_less@.len() as int)[i]);
                assert(b.perm_less@[i] == c.perm_less@.subrange(0, b.perm_less@.len() as int)[i]);
            }
        }
        assert(a.perm_less_if@ =~= c.perm_less_if@.subrange(0, a.perm_less_if@.len() as int)) by {
            assert forall|i: int| 0 <= i < a.perm_less_if@.len() implies a.perm_less_if@[i]
                == c.perm_less_if@[i] by {
                assert(a.perm_less_if@[i] == b.perm_less_if@.subrange(
                    0,
                    a.perm_less_if@.len() as int,
                )[i]);
                assert(b.perm_less_if@[i] == c.perm_less_if@.subrange(
                    0,
                    b.perm_less_if@.len() as int,
                )[i]);
            }
        }
        assert(a.results.types().submap_of(c.results.types())) by {
            assert forall|k: u32| #[trigger] a.results.types().dom().contains(k) implies c.results.types().dom().contains(
                k,
            ) && a.results.types()[k] == c.results.types()[k] by {
                assert(b.results.types().dom().contains(k));
            }
        }
        assert(a.results.types().submap_of(a.results.types()));
        assert(a.tables@.extended_by(c.tables@));
        assert(a.results.errors().is_prefix_of(c.results.errors()));
        assert(a.perm_less@.is_prefix_of(c.perm_less@));
        assert(a.perm_less_if@.is_prefix_of(c.perm_less_if@));
        assert forall|v: InferVar|
            a.unify.has(v) && a.unify.value_of(v) is Some implies #[trigger] c.unify.value_of(v)
            == a.unify.value_of(v) by {
            assert(b.unify.value_of(v) == a.unify.value_of(v));
            assert(b.unify.has(v));
        }
        assert forall|v: InferVar, w: InferVar|
            a.unify.has(v) && a.unify.has(w)
                && a.unify.same_class(v, w) implies #[trigger] c.unify.same_class(
            v,
            w,
        ) by {
            assert(b.unify.same_class(v, w));
            assert(b.unify.has(v) && b.unify.has(w));
        }
    }

    /// What is left to show after a step that only extended the tables
    /// and added variables: the parts of the invariant that speak of
    /// older things still hold.
    pub proof fn lemma_older_parts(before: &TypeChecker, after: &TypeChecker)
        requires
            before.wf(),
            after.tables.wf(),
            before.tables@.extended_by(after.tables@),
            before.unify.len() <= after.unify.len(),
            after.results.types() == before.results.types(),
            after.variables@ == before.variables@,
            after.ops == before.ops,
            after.primitives == before.primitives,
            after.perm_less@ == before.perm_less@,
            after.perm_less_if@ == before.perm_less_if@,
        ensures
            after.types_ok(),
            after.ops_ok(),
            after.facts_ok(),
            after.primitives_ok(),
            after.ops.wf(),
    {
        lemma_extension(before.tables@, after.tables@, after.tables@);
        assert forall|n: u32| #[trigger] after.results.types().contains_key(n) implies after.has_ty(
            after.results.types()[n],
        ) by {
            assert(before.has_ty(before.results.types()[n]));
        }
        assert forall|i: int| 0 <= i < after.variables@.len() implies (
        #[trigger] after.variables@[i] matches Some(ty) ==> after.has_ty(ty)) by {
            match before.variables@[i] {
                Some(ty) => {
                    assert(before.has_ty(ty));
                },
                None => {},
            }
        }
        assert forall|at: OpIndex| #[trigger] after.ops.pending().contains_key(at) implies (
        after.ops.pending()[at] matches Op::FieldAccess { owner, target, .. }
            ==> after.has_ty(owner)
            && after.has_ty(target)) by {
            match before.ops.pending()[at] {
                Op::FieldAccess { owner, target, .. } => {
                    assert(before.has_ty(owner) && before.has_ty(target));
                },
            }
        }
    }

    /// How a skeleton is seen as far as it is known now: an inference
    /// variable is seen as what its class is resolved to, or as unresolved;
    /// a known skeleton and a generic parameter are seen as themselves.
    pub open spec fn seen_as(&self, base: Base) -> Shallow {
        match self.tables@.bases[base.index as int] {
            BaseData::Inferred(v) => match self.unify.value_of(v) {
                None => Shallow::Unresolved(v),
                Some(b) => match self.tables@.bases[b.index as int] {
                    BaseData::Known { kind, generics } => Shallow::Known { base: b, kind, generics },
                    _ => Shallow::Rigid(b),
                },
            },
            BaseData::Known { kind, generics } => Shallow::Known { base, kind, generics },
            BaseData::Placeholder(_) => Shallow::Rigid(base),
        }
    }

    /// Looks at a skeleton as far as it is known now.
    pub fn shallow(&self, base: Base) -> (seen: Shallow)
        requires
            self.tables.wf(),
            self.unify.wf(),
            self.vars_tracked(),
            self.values_ok(),
            base.index < self.tables@.bases.len(),
        ensures
            seen == self.seen_as(base),
            match seen {
                Shallow::Unresolved(v) => self.tables@.bases[base.index as int]
                    == BaseData::Inferred(v) && self.unify.has(v) && self.known(base) is None,
                Shallow::Known { base: b, kind, generics } => self.known(base) == Some(b) && b.index
                    < self.tables@.bases.len() && self.tables@.bases[b.index as int]
                    == (BaseData::Known { kind, generics }) && generics.index
                    < self.tables@.generics.len(),
                Shallow::Rigid(b) => self.known(base) == Some(b) && b.index
                    < self.tables@.bases.len() && self.tables@.bases[b.index as int] is Placeholder,
            },
    {
        match self.tables.untern_base(base) {
            BaseData::Inferred(v) => {
                match self.unify.resolve(v) {
                    None => Shallow::Unresolved(v),
                    Some(b) => {
                        proof {
                            assert(self.tables@.has_base_data(self.tables@.bases[b.index as int]));
                        }
                        match self.tables.untern_base(b) {
                            BaseData::Known { kind, generics } => Shallow::Known {
                                base: b,
                                kind,
                                generics,
                            },
                            _ => Shallow::Rigid(b),
                        }
                    },
                }
            },
            BaseData::Known { kind, generics } => {
                proof {
                    assert(self.tables@.has_base_data(self.tables@.bases[base.index as int]));
                }
                Shallow::Known { base, kind, generics }
            },
            BaseData::Placeholder(_) => Shallow::Rigid(base),
        }
    }

    /// A skeleton that is a fresh inference variable. Where the tables are
    /// full, the sentinel stands in.
    pub fn fresh_infer_base(&mut self) -> (base: Base)
        requires
            old(self).wf(),
        ensures
            final(self).wf(),
            Self::quiet_step(old(self), final(self)),
            Self::keeps_time(old(self), final(self)),
            final(self).results.errors() == old(self).results.errors(),
            final(self).perm_less@ == old(self).perm_less@,
            final(self).perm_less_if@ == old(self).perm_less_if@,
            final(self).unify.events() == old(self).unify.events(),
            final(self).tables@.perms == old(self).tables@.perms,
            final(self).tables@.generics == old(self).tables@.generics,
            final(self).next_perm_var == old(self).next_perm_var,
            forall|w: InferVar|
                old(self).unify.has(w) ==> #[trigger] final(self).unify.value_of(w)
                    == old(self).unify.value_of(w),
            base.index < final(self).tables@.bases.len(),
            base == final(self).primitives.error <==> old(self).unify.len() >= u32::MAX || old(self).tables@.bases.len() >= u32::MAX,
            base != final(self).primitives.error ==> final(self).tables@.bases[base.index as int]
                == BaseData::Inferred(InferVar { index: old(self).unify.len() as u32 }) && final(self).known(base) is None && final(self).unify.len() == old(self).unify.len() + 1,
    {
        proof {
            Self::lemma_grows(self, self, self);
            Self::lemma_same_time(self, self);
        }
        if self.unify.count() >= u32::MAX as usize
            || self.tables.base_count() >= u32::MAX as usize {
            return self.primitives.error;
        }
        let ghost before = *self;
        let v = self.unify.new_variable();
        let base = self.tables.intern_base(BaseData::Inferred(v));
        proof {
            lemma_extension(before.tables@, self.tables@, self.tables@);
            Self::lemma_older_parts(&before, self);
            assert(self.vars_tracked()) by {
                assert forall|b: int| 0 <= b < self.tables@.bases.len() implies (
                #[trigger] self.tables@.bases[b] matches BaseData::Inferred(w) ==> self.unify.has(
                    w,
                )) by {
                    if b < before.tables@.bases.len() {
                        assert(self.tables@.bases[b] == before.tables@.bases[b]);
                    }
                }
            }
            assert(self.values_ok()) by {
                assert forall|w: InferVar| self.unify.has(w) implies (#[trigger] self.unify.value_of(
                    w,
                ) matches Some(b) ==> b.index < self.tables@.bases.len() && !(
                self.tables@.bases[b.index as int] is Inferred)) by {
                    if before.unify.has(w) {
                        assert(self.unify.rep(w) == before.unify.rep(w));
                        match before.unify.value_of(w) {
                            Some(b) => {
                                assert(self.tables@.bases[b.index as int]
                                    == before.tables@.bases[b.index as int]);
                            },
                            None => {},
                        }
                    } else {
                        assert(w == v);
                    }
                }
            }
            assert(self.perms_tracked());
            assert forall|x: InferVar, y: InferVar|
                before.unify.has(x) && before.unify.has(y) && before.unify.same_class(
                    x,
                    y,
                ) implies #[trigger] self.unify.same_class(x, y) by {
                assert(self.unify.rep(x) == before.unify.rep(x));
                assert(self.unify.rep(y) == before.unify.rep(y));
            }
            assert forall|x: InferVar| before.unify.has(x) implies #[trigger] self.unify.value_of(
                x,
            ) == before.unify.value_of(x) by {
                assert(self.unify.rep(x) == before.unify.rep(x));
            }
            Self::lemma_time_with_new_variables(&before, self);
        }
        base
    }

    /// Whether no further permission variable can be handed out: the
    /// indices are used up, or the tables are full.
    pub open spec fn perm_vars_spent(&self) -> bool {
        self.next_perm_var == u32::MAX || self.tables@.perms.len() >= u32::MAX
    }

    /// A permission that is a fresh permission variable: the variable with
    /// the next index, interned under the next key. Where no further
    /// variable can be handed out, the erased permission stands in and
    /// nothing changes.
    pub fn fresh_perm_var(&mut self) -> (perm: Perm)
        requires
            old(self).wf(),
        ensures
            final(self).wf(),
            Self::quiet_step(old(self), final(self)),
            Self::keeps_time(old(self), final(self)),
            final(self).unify == old(self).unify,
            final(self).results == old(self).results,
            final(self).perm_less@ == old(self).perm_less@,
            final(self).perm_less_if@ == old(self).perm_less_if@,
            final(self).tables@.bases == old(self).tables@.bases,
            final(self).tables@.generics == old(self).tables@.generics,
            perm.index < final(self).tables@.perms.len(),
            old(self).perm_vars_spent() ==> perm == old(self).primitives.erased && *final(self)
                == *old(self),
            !old(self).perm_vars_spent() ==> perm.index == old(self).tables@.perms.len() && final(self).tables@.perms == old(self).tables@.perms.push(
                PermData::Inferred(PermVar { index: old(self).next_perm_var }),
            ) && final(self).next_perm_var == old(self).next_perm_var + 1,
    {
        proof {
            Self::lemma_grows(self, self, self);
            Self::lemma_same_time(self, self);
        }
        if self.next_perm_var == u32::MAX || self.tables.perm_count() >= u32::MAX as usize {
            return self.primitives.erased;
        }
        let ghost before = *self;
        let var = PermVar { index: self.next_perm_var };
        self.next_perm_var = self.next_perm_var + 1;
        let perm = self.tables.intern_perm(PermData::Inferred(var));
        proof {
            lemma_extension(before.tables@, self.tables@, self.tables@);
            Self::lemma_older_parts(&before, self);
            assert(self.perms_tracked()) by {
                assert forall|p: int| 0 <= p < self.tables@.perms.len() implies (
                #[trigger] self.tables@.perms[p] matches PermData::Inferred(w) ==> w.index
                    < self.next_perm_var) by {
                    if p < before.tables@.perms.len() {
                        assert(self.tables@.perms[p] == before.tables@.perms[p]);
                    }
                }
            }
            Self::lemma_same_time(&before, self);
            assert(!before.tables@.perms.contains(PermData::Inferred(var))) by {
                if before.tables@.perms.contains(PermData::Inferred(var)) {
                    let k = choose|k: int|
                        0 <= k < before.tables@.perms.len() && before.tables@.perms[k]
                            == PermData::Inferred(var);
                    assert(before.tables@.perms[k] matches PermData::Inferred(w) ==> w.index
                        < before.next_perm_var);
                }
            }
            if perm.index < before.tables@.perms.len() {
                assert(self.tables@.perms[perm.index as int]
                    == before.tables@.perms[perm.index as int]);
                assert(before.tables@.perms.contains(PermData::Inferred(var)));
            }
        }
        perm
    }

    /// Records the edge `from <= to`.
    pub fn push_less(&mut self, from: Perm, to: Perm, cause: Node)
        requires
            old(self).wf(),
            from.index < old(self).tables@.perms.len(),
            to.index < old(self).tables@.perms.len(),
        ensures
            final(self).wf(),
            final(self).next_perm_var == old(self).next_perm_var,
            Self::quiet_step(old(self), final(self)),
            Self::keeps_time(old(self), final(self)),
            final(self).tables@ == old(self).tables@,
            final(self).unify == old(self).unify,
            final(self).results == old(self).results,
            final(self).perm_less@ == old(self).perm_less@.push((from, to, cause)),
            final(self).perm_less_if@ == old(self).perm_less_if@,
    {
        proof {
            Self::lemma_grows(self, self, self);
            Self::lemma_same_time(self, self);
        }
        self.perm_less.push((from, to, cause));
        proof {
            Self::lemma_same_time(old(self), self);
            assert(old(self).perm_less@ =~= self.perm_less@.subrange(
                0,
                old(self).perm_less@.len() as int,
            ));
        }
    }

    /// Records the edge `from <= to`, which counts once `guard` is at least
    /// borrowed.
    pub fn push_less_if(&mut self, guard: Perm, from: Perm, to: Perm, cause: Node)
        requires
            old(self).wf(),
            guard.index < old(self).tables@.perms.len(),
            from.index < old(self).tables@.perms.len(),
            to.index < old(self).tables@.perms.len(),
        ensures
            final(self).wf(),
            final(self).next_perm_var == old(self).next_perm_var,
            Self::quiet_step(old(self), final(self)),
            Self::keeps_time(old(self), final(self)),
            final(self).tables@ == old(self).tables@,
            final(self).unify == old(self).unify,
            final(self).results == old(self).results,
            final(self).perm_less@ == old(self).perm_less@,
            final(self).perm_less_if@ == old(self).perm_less_if@.push((guard, from, to, cause)),
    {
        proof {
            Self::lemma_grows(self, self, self);
            Self::lemma_same_time(self, self);
        }
        self.perm_less_if.push((guard, from, to, cause));
        proof {
            Self::lemma_same_time(old(self), self);
            assert(old(self).perm_less_if@ =~= self.perm_less_if@.subrange(
                0,
                old(self).perm_less_if@.len() as int,
            ));
        }
    }

    /// Records an error at `location`.
    pub fn report(&mut self, location: Node)
        requires
            old(self).wf(),
        ensures
            final(self).wf(),
            final(self).next_perm_var == old(self).next_perm_var,
            Self::quiet_step(old(self), final(self)),
            Self::keeps_time(old(self), final(self)),
            final(self).tables@ == old(self).tables@,
            final(self).unify == old(self).unify,
            final(self).perm_less@ == old(self).perm_less@,
            final(self).perm_less_if@ == old(self).perm_less_if@,
            final(self).results.errors() == old(self).results.errors().push(Error { location }),
    {
        proof {
            Self::lemma_grows(self, self, self);
            Self::lemma_same_time(self, self);
        }
        self.results.record_error(location);
        proof {
            Self::lemma_same_time(old(self), self);
            assert(old(self).results.errors() =~= self.results.errors().subrange(
                0,
                old(self).results.errors().len() as int,
            ));
        }
    }

    /// The errors after two skeletons were found to clash: where one of
    /// them is the sentinel, an error was reported before and none is
    /// added; else the clash is reported at `cause`.
    pub open spec fn errors_after_clash(&self, cause: Node, b1: Base, b2: Base) -> Seq<Error> {
        if self.known(b1) == Some(self.primitives.error) || self.known(b2) == Some(
            self.primitives.error,
        ) {
            self.results.errors()
        } else {
            self.results.errors().push(Error { location: cause })
        }
    }

    /// What follows a clash of the known skeletons `left` and `right`.
    fn mismatch(&mut self, cause: Node, left: Base, right: Base)
        requires
            old(self).wf(),
        ensures
            final(self).wf(),
            final(self).next_perm_var == old(self).next_perm_var,
            Self::quiet_step(old(self), final(self)),
            Self::keeps_time(old(self), final(self)),
            final(self).tables@ == old(self).tables@,
            final(self).unify == old(self).unify,
            final(self).perm_less@ == old(self).perm_less@,
            final(self).perm_less_if@ == old(self).perm_less_if@,
            final(self).results.errors() == (if left == old(self).primitives.error || right
                == old(self).primitives.error {
                old(self).results.errors()
            } else {
                old(self).results.errors().push(Error { location: cause })
            }),
    {
        proof {
            Self::lemma_grows(self, self, self);
            Self::lemma_same_time(self, self);
        }
        if left == self.primitives.error || right == self.primitives.error {
        } else {
            self.report(cause);
        }
        proof {
            Self::lemma_same_time(old(self), self);
        }
    }

    /// Requires two skeletons to be the same.
    ///
    /// Where both are known and differ, nothing is unified, and the clash
    /// is reported at `cause`, unless one of them is the sentinel. Else
    /// they are made one: two variables are unified, a variable is
    /// resolved to the known skeleton.
    pub fn equate_bases(&mut self, cause: Node, b1: Base, b2: Base) -> (ok: bool)
        requires
            old(self).wf(),
            b1.index < old(self).tables@.bases.len(),
            b2.index < old(self).tables@.bases.len(),
        ensures
            final(self).wf(),
            final(self).next_perm_var == old(self).next_perm_var,
            Self::quiet_step(old(self), final(self)),
            Self::keeps_time(old(self), final(self)),
            final(self).tables@ == old(self).tables@,
            final(self).perm_less@ == old(self).perm_less@,
            final(self).perm_less_if@ == old(self).perm_less_if@,
            ok == !old(self).clash(b1, b2),
            !ok ==> final(self).unify == old(self).unify && final(self).results.errors()
                == old(self).errors_after_clash(cause, b1, b2),
            ok ==> final(self).results.errors() == old(self).results.errors() && final(self).agree(
                b1,
                b2,
            ),
    {
        proof {
            Self::lemma_grows(self, self, self);
            Self::lemma_same_time(self, self);
        }
        let ghost before = *self;
        let d1 = self.tables.untern_base(b1);
        let d2 = self.tables.untern_base(b2);
        let outcome: Result<(), crate::unify::TypeMismatch> = match (d1, d2) {
            (BaseData::Inferred(v1), BaseData::Inferred(v2)) => self.unify.unify(v1, v2),
            (BaseData::Inferred(v1), _) => self.unify.assign(v1, b2),
            (_, BaseData::Inferred(v2)) => {
                match self.unify.assign(v2, b1) {
                    Ok(()) => Ok(()),
                    Err(e) => Err(crate::unify::TypeMismatch { left: e.right, right: e.left }),
                }
            },
            _ => {
                if b1 == b2 {
                    Ok(())
                } else {
                    Err(crate::unify::TypeMismatch { left: b1, right: b2 })
                }
            },
        };
        match outcome {
            Err(e) => {
                proof {
                    assert(self.unify == before.unify);
                    assert(before.known(b1) == Some(e.left));
                    assert(before.known(b2) == Some(e.right));
                }
                self.mismatch(cause, e.left, e.right);
                proof {
                    Self::lemma_same_time(&before, self);
                }
                false
            },
            Ok(()) => {
                proof {
                    assert(self.unify.wf());
                    Self::lemma_older_parts(&before, self);
                    assert forall|w: InferVar| before.unify.has(w) implies (
                    before.unify.value_of(w) is Some ==> #[trigger] self.unify.value_of(w)
                        == before.unify.value_of(w)) && (#[trigger] self.unify.value_of(w)
                        matches Some(b) ==> b.index < self.tables@.bases.len() && !(
                    self.tables@.bases[b.index as int] is Inferred)) by {
                        match (d1, d2) {
                            (BaseData::Inferred(v1), BaseData::Inferred(v2)) => {
                                before.unify.lemma_rep(v1);
                                before.unify.lemma_rep(v2);
                                before.unify.lemma_same_class_same_value(w, w);
                                if before.unify.same_class(w, v1) {
                                    before.unify.lemma_same_class_same_value(w, v1);
                                }
                                if before.unify.same_class(w, v2) {
                                    before.unify.lemma_same_class_same_value(w, v2);
                                }
                            },
                            (BaseData::Inferred(v1), _) => {
                                if before.unify.same_class(w, v1) {
                                    before.unify.lemma_same_class_same_value(w, v1);
                                }
                            },
                            (_, BaseData::Inferred(v2)) => {
                                if before.unify.same_class(w, v2) {
                                    before.unify.lemma_same_class_same_value(w, v2);
                                }
                            },
                            _ => {},
                        }
                    }
                    assert forall|x: InferVar, y: InferVar|
                        before.unify.has(x) && before.unify.has(y) && before.unify.same_class(
                            x,
                            y,
                        ) implies #[trigger] self.unify.same_class(x, y) by {
                        match (d1, d2) {
                            (BaseData::Inferred(v1), BaseData::Inferred(v2)) => {
                                assert(self.unify.rep(x) == (if before.unify.same_class(x, v1) {
                                    before.unify.rep(v2)
                                } else {
                                    before.unify.rep(x)
                                }));
                                assert(self.unify.rep(y) == (if before.unify.same_class(y, v1) {
                                    before.unify.rep(v2)
                                } else {
                                    before.unify.rep(y)
                                }));
                            },
                            (BaseData::Inferred(v1), _) => {
                                assert(self.unify.rep(x) == before.unify.rep(x));
                                assert(self.unify.rep(y) == before.unify.rep(y));
                            },
                            (_, BaseData::Inferred(v2)) => {
                                assert(self.unify.rep(x) == before.unify.rep(x));
                                assert(self.unify.rep(y) == before.unify.rep(y));
                            },
                            _ => {},
                        }
                    }
                    assert(self.values_ok());
                    assert(self.vars_tracked());
                    assert(Self::keeps_time(&before, self)) by {
                        before.unify.lemma_events_resolved();
                        assert(self.unify.events() == before.unify.events()
                            + UnificationTable::resolved_since(
                            before.unify,
                            self.unify,
                            before.unify.len(),
                        )) by {
                            match (d1, d2) {
                                (BaseData::Inferred(v1), BaseData::Inferred(v2)) => {},
                                (BaseData::Inferred(v1), _) => {},
                                (_, BaseData::Inferred(v2)) => {},
                                _ => {
                                    UnificationTable::lemma_resolved_since_same(
                                        before.unify,
                                        before.unify.len(),
                                    );
                                    assert(before.unify.events() + Seq::<InferVar>::empty()
                                        =~= before.unify.events());
                                },
                            }
                        }
                        assert forall|extra: Seq<InferVar>| #[trigger]
                            before.on_time_but(extra) implies self.on_time_but(extra) by {
                            assert forall|at: OpIndex, v: InferVar|
                                self.ops.pending().contains_key(at)
                                    && #[trigger] self.ops.waits()[at].contains(
                                    v,
                                ) implies self.unify.has(v) && (self.unify.value_of(v) is Some
                                ==> self.unify.events().contains(v) || extra.contains(v)) by {
                                assert(before.unify.has(v));
                                if self.unify.value_of(v) is Some {
                                    if before.unify.value_of(v) is Some {
                                        if before.unify.events().contains(v) {
                                            let k = choose|k: int|
                                                0 <= k < before.unify.events().len()
                                                    && before.unify.events()[k] == v;
                                            assert(self.unify.events()[k] == v);
                                        }
                                    } else {
                                        UnificationTable::lemma_resolved_since_contains(
                                            before.unify,
                                            self.unify,
                                            before.unify.len(),
                                            v,
                                        );
                                        let r = UnificationTable::resolved_since(
                                            before.unify,
                                            self.unify,
                                            before.unify.len(),
                                        );
                                        let k = choose|k: int| 0 <= k < r.len() && r[k] == v;
                                        assert(self.unify.events()[before.unify.events().len() + k]
                                            == v);
                                    }
                                }
                            }
                        }
                    }
                    assert(self.agree(b1, b2)) by {
                        match (d1, d2) {
                            (BaseData::Inferred(v1), BaseData::Inferred(v2)) => {},
                            (BaseData::Inferred(v1), _) => {},
                            (_, BaseData::Inferred(v2)) => {},
                            _ => {},
                        }
                    }
                }
                true
            },
        }
    }
}

} // verus!
