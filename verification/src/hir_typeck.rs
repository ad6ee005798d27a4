//! The base type checker: one pass over the body of a function, from the
//! leaves up, that gives every expression a type.
//!
//! A leaf gets its type at once. A composite expression has its parts
//! checked first and then asks the family for the type that its kind
//! calls for. Where the type of a part is not known yet, the expression
//! gets a fresh inference variable for its type, and what is left to do
//! is suspended until the part is resolved. Every error is recorded, and
//! the sentinel type stands in, so that no checked node is left without a
//! type.

use crate::family::{BaseOnly, FullInference, TypeCheckFamily};
use crate::kind_inference::{classification, facts_in_range, inference, listed_by_key};
use crate::kind_map::KindMap;
use crate::hir::{children, Declarations, Expression, FnBody, LiteralKind};
use crate::intern::{lemma_extension, InternersView, TyInterners};
use crate::ops::{Op, OpIndex, Scheduler};
use crate::results::{Error, TypeCheckResults};
use crate::ty::{Base, BaseData, BaseKind, Entity, InferVar, Node, Perm, PermData, PermKind, Ty};
use crate::substitute::subst_base;
use crate::typeck::{Primitives, Shallow, TypeChecker, UniverseBinder};
use crate::unify::UnificationTable;
use vstd::prelude::*;

verus! {

/// The tables hold what was declared, and no inference variable.
pub open spec fn declared_only(tables: InternersView) -> bool {
    &&& forall|b: int| 0 <= b < tables.bases.len() ==> !(#[trigger] tables.bases[b] is Inferred)
    &&& forall|p: int| 0 <= p < tables.perms.len() ==> !(#[trigger] tables.perms[p] is Inferred)
}

/// The tables have room for the types that every session starts with.
pub open spec fn has_room(tables: InternersView) -> bool {
    &&& tables.perms.len() + 2 <= u32::MAX
    &&& tables.bases.len() + 5 <= u32::MAX
    &&& tables.generics.len() + 1 <= u32::MAX
}

/// The built-in types of `decls` are the skeletons that `p` names.
pub open spec fn primitives_of(tables: InternersView, decls: &Declarations, p: Primitives) -> bool {
    &&& tables.bases[p.boolean.index as int] == (BaseData::Known {
        kind: BaseKind::Named(decls.boolean),
        generics: p.no_generics,
    })
    &&& tables.bases[p.integer.index as int] == (BaseData::Known {
        kind: BaseKind::Named(decls.integer),
        generics: p.no_generics,
    })
    &&& tables.bases[p.unsigned.index as int] == (BaseData::Known {
        kind: BaseKind::Named(decls.unsigned),
        generics: p.no_generics,
    })
    &&& tables.bases[p.unit.index as int] == (BaseData::Known {
        kind: BaseKind::Named(decls.unit),
        generics: p.no_generics,
    })
}

impl TypeChecker {
    /// A session for the body of `fn_entity`, with nothing checked yet.
    /// The parameters have their declared types; no other variable has a
    /// type.
    pub fn new(tables: TyInterners, decls: &Declarations, fn_entity: Entity,
        body: &FnBody) -> (this:
        TypeChecker)
        requires
            tables.wf(),
            declared_only(tables@),
            has_room(tables@),
            decls.wf(tables@),
            body.wf(),
            forall|i: int|
                0 <= i < body.parameters@.len() ==> tables@.has_ty(#[trigger] body.parameters@[i]),
        ensures
            this.wf(),
            tables@.extended_by(this.tables@),
            decls.wf(this.tables@),
            primitives_of(this.tables@, decls, this.primitives),
            this.results.types() == Map::<u32, Ty>::empty(),
            this.results.errors() == Seq::<Error>::empty(),
            this.variables@.len() == body.variables,
            this.unify.events() == Seq::<InferVar>::empty(),
            this.ops.pending() == Map::<OpIndex, Op>::empty(),
            this.on_time(),
            this.in_step(),
            this.perm_less@ == Seq::<(Perm, Perm, Node)>::empty(),
            this.perm_less_if@ == Seq::<(Perm, Perm, Perm, Node)>::empty(),
            this.fn_entity == fn_entity,
    {
        let ghost t0 = tables@;
        let mut tables = tables;
        let no_generics = tables.intern_generics(Vec::new());
        let ghost t1 = tables@;
        let error = tables.intern_base(BaseData::Known { kind: BaseKind::Error,
            generics: no_generics });
        let ghost t2 = tables@;
        let boolean = tables.intern_base(
            BaseData::Known { kind: BaseKind::Named(decls.boolean), generics: no_generics },
        );
        let ghost t3 = tables@;
        let integer = tables.intern_base(
            BaseData::Known { kind: BaseKind::Named(decls.integer), generics: no_generics },
        );
        let ghost t4 = tables@;
        let unsigned = tables.intern_base(
            BaseData::Known { kind: BaseKind::Named(decls.unsigned), generics: no_generics },
        );
        let ghost t5 = tables@;
        let unit = tables.intern_base(
            BaseData::Known { kind: BaseKind::Named(decls.unit), generics: no_generics },
        );
        let ghost t6 = tables@;
        let erased = tables.intern_perm(PermData::Known(PermKind::Share));
        let ghost t7 = tables@;
        let own = tables.intern_perm(PermData::Known(PermKind::Own));
        let ghost t8 = tables@;
        proof {
            lemma_extension(t0, t1, t2);
            lemma_extension(t0, t2, t3);
            lemma_extension(t0, t3, t4);
            lemma_extension(t0, t4, t5);
            lemma_extension(t0, t5, t6);
            lemma_extension(t0, t6, t7);
            lemma_extension(t0, t7, t8);
            lemma_extension(t1, t2, t8);
            lemma_extension(t2, t3, t8);
            lemma_extension(t3, t4, t8);
            lemma_extension(t4, t5, t8);
            lemma_extension(t5, t6, t8);
            lemma_extension(t6, t7, t8);
            lemma_extension(t1, t8, t8);
            lemma_extension(t2, t8, t8);
            lemma_extension(t3, t8, t8);
            lemma_extension(t4, t8, t8);
            lemma_extension(t5, t8, t8);
            lemma_extension(t6, t8, t8);
            lemma_extension(t7, t8, t8);
            lemma_extension(t0, t8, t8);
        }
        let mut variables: Vec<Option<Ty>> = Vec::new();
        let mut i: u32 = 0;
        while i < body.variables
            invariant
                i <= body.variables,
                variables@.len() == i,
                forall|k: int|
                    0 <= k < body.parameters@.len() ==> t8.has_ty(#[trigger] body.parameters@[k]),
                forall|k: int|
                    0 <= k < variables@.len() ==> (#[trigger] variables@[k] matches Some(ty)
                        ==> t8.has_ty(ty)),
            decreases body.variables - i,
        {
            if (i as usize) < body.parameters.len() {
                variables.push(Some(body.parameters[i as usize]));
            } else {
                variables.push(None);
            }
            i = i + 1;
        }
        let mut universe_binders: Vec<UniverseBinder> = Vec::new();
        universe_binders.push(UniverseBinder::Root);
        universe_binders.push(UniverseBinder::FromItem(fn_entity));
        let this = TypeChecker {
            tables,
            unify: UnificationTable::new(),
            ops: Scheduler::new(),
            results: TypeCheckResults::new(),
            variables,
            perm_less: Vec::new(),
            perm_less_if: Vec::new(),
            next_perm_var: 0,
            primitives: Primitives { boolean, integer, unsigned, unit, error, erased, own,
                no_generics },
            fn_entity,
            universe_binders,
            ran: Ghost(Seq::empty()),
        };
        proof {
            assert(this.vars_tracked()) by {
                assert forall|b: int| 0 <= b < t8.bases.len() implies !(#[trigger] t8.bases[b]
                    is Inferred) by {
                    if b < t0.bases.len() {
                        assert(t8.bases[b] == t0.bases[b]);
                    } else if b < t2.bases.len() {
                        assert(t8.bases[b] == t2.bases[b]);
                    } else if b < t3.bases.len() {
                        assert(t8.bases[b] == t3.bases[b]);
                    } else if b < t4.bases.len() {
                        assert(t8.bases[b] == t4.bases[b]);
                    } else if b < t5.bases.len() {
                        assert(t8.bases[b] == t5.bases[b]);
                    } else {
                        assert(t8.bases[b] == t6.bases[b]);
                    }
                }
            }
            assert(this.perms_tracked()) by {
                assert forall|p: int| 0 <= p < t8.perms.len() implies !(#[trigger] t8.perms[p]
                    is Inferred) by {
                    if p < t0.perms.len() {
                        assert(t8.perms[p] == t0.perms[p]);
                    } else if p < t7.perms.len() {
                        assert(t8.perms[p] == t7.perms[p]);
                    }
                }
            }
            assert(this.primitives_ok() && primitives_of(this.tables@, decls, this.primitives)) by {
                assert(t8.generics[no_generics.index as int]
                    == t1.generics[no_generics.index as int]);
                assert(t8.bases[error.index as int] == t2.bases[error.index as int]);
                assert(t8.bases[boolean.index as int] == t3.bases[boolean.index as int]);
                assert(t8.bases[integer.index as int] == t4.bases[integer.index as int]);
                assert(t8.bases[unsigned.index as int] == t5.bases[unsigned.index as int]);
                assert(t8.bases[unit.index as int] == t6.bases[unit.index as int]);
                assert(t8.perms[erased.index as int] == t7.perms[erased.index as int]);
            }
            assert(decls.wf(this.tables@));
            assert(this.ops.fired_ops() =~= Seq::<Op>::empty());
        }
        this
    }
}

impl TypeChecker {
    /// Records the entity that the identifier at `index` was resolved to.
    pub fn note_entity(&mut self, index: Node, entity: Entity)
        requires
            old(self).wf(),
        ensures
            final(self).wf(),
            TypeChecker::quiet_step(old(self), final(self)),
            TypeChecker::keeps_time(old(self), final(self)),
            final(self).tables@ == old(self).tables@,
            final(self).unify == old(self).unify,
            final(self).results.errors() == old(self).results.errors(),
            final(self).results.entities() == old(self).results.entities().insert(
                index.index,
                entity,
            ),
            final(self).perm_less@ == old(self).perm_less@,
            final(self).perm_less_if@ == old(self).perm_less_if@,
    {
        proof {
            TypeChecker::lemma_grows(self, self, self);
        }
        self.results.record_entity(index, entity);
        proof {
            TypeChecker::lemma_same_time(old(self), self);
        }
    }
}

/// The skeleton of the type of the field `name` of an owner whose
/// skeleton is seen as `seen`: the declared skeleton of the field with
/// the generic arguments of the owner in the place of the placeholders;
/// the sentinel where the owner has no such field, is no declared type,
/// or is not known.
pub open spec fn field_base(this: &TypeChecker, decls: &Declarations, seen: Shallow, name: u32) -> Base {
    match seen {
        Shallow::Known { kind: BaseKind::Named(entity), generics, .. } => match decls.field_of(
            entity,
            name,
        ) {
            Some(field) => subst_base(
                this.tables@,
                this.tables@.generics[generics.index as int],
                field.ty.base,
            ).0,
            None => this.primitives.error,
        },
        _ => this.primitives.error,
    }
}

/// The errors after the field `name` was looked up in an owner whose
/// skeleton is seen as `seen`: an owner without such a field, and an
/// owner that is a generic parameter, are an error at `cause`.
pub open spec fn field_errors(
    this: &TypeChecker,
    decls: &Declarations,
    seen: Shallow,
    name: u32,
    cause: Node,
) -> Seq<Error> {
    match seen {
        Shallow::Known { kind: BaseKind::Named(entity), .. } => match decls.field_of(entity, name) {
            Some(_) => this.results.errors(),
            None => this.results.errors().push(Error { location: cause }),
        },
        Shallow::Rigid(_) => this.results.errors().push(Error { location: cause }),
        _ => this.results.errors(),
    }
}

/// The type of the field `name` of an owner of type `owner_ty`, whose
/// skeleton is seen as `seen`.
///
/// A declared field has its declared type, with the generic arguments of
/// the owner in the place of the placeholders, seen through the
/// permission of the owner; the field's entity is recorded at `cause`.
/// An owner without such a field, and an owner that is a generic
/// parameter, are errors at `cause`. An owner that is the sentinel, or
/// still unknown, gives the sentinel without a new error.
pub fn field_type<F: TypeCheckFamily>(
    this: &mut TypeChecker,
    decls: &Declarations,
    cause: Node,
    owner_ty: Ty,
    seen: Shallow,
    name: u32,
) -> (ty: Ty)
    requires
        old(this).wf(),
        decls.wf(old(this).tables@),
        old(this).has_ty(owner_ty),
        seen matches Shallow::Known { generics, .. } ==> generics.index
            < old(this).tables@.generics.len(),
    ensures
        final(this).wf(),
        decls.wf(final(this).tables@),
        TypeChecker::quiet_step(old(this), final(this)),
        TypeChecker::keeps_time(old(this), final(this)),
        final(this).has_ty(ty),
        final(this).unify == old(this).unify,
        ty.base == field_base(old(this), decls, seen, name),
        final(this).results.errors() == field_errors(old(this), decls, seen, name, cause),
        forall|bound: nat|
            #[trigger] old(this).located_within(bound) && cause.index < bound
                ==> final(this).located_within(bound),
        match seen {
            Shallow::Known { kind: BaseKind::Named(entity), generics, .. } => match decls.field_of(
                entity,
                name,
            ) {
                Some(field) => ty.base == subst_base(
                    old(this).tables@,
                    old(this).tables@.generics[generics.index as int],
                    field.ty.base,
                ).0 && subst_base(
                    old(this).tables@,
                    old(this).tables@.generics[generics.index as int],
                    field.ty.base,
                ).1.extended_by(final(this).tables@) && final(this).results.errors()
                    == old(this).results.errors()
                    && final(this).results.entities() == old(this).results.entities().insert(
                    cause.index,
                    field.entity,
                ),
                None => ty.base == final(this).primitives.error && final(this).results.errors()
                    == old(this).results.errors().push(Error { location: cause }),
            },
            Shallow::Known { kind: BaseKind::Error, .. } => ty.base == final(this).primitives.error
                && final(this).results.errors() == old(this).results.errors(),
            Shallow::Rigid(_) => ty.base == final(this).primitives.error
                && final(this).results.errors()
                == old(this).results.errors().push(Error { location: cause }),
            Shallow::Unresolved(_) => ty.base == final(this).primitives.error
                && final(this).results.errors() == old(this).results.errors(),
        },
{
    let ghost start = *this;
    proof {
        TypeChecker::lemma_grows(this, this, this);
        TypeChecker::lemma_same_time(this, this);
    }
    match seen {
        Shallow::Known { base, kind, generics } => {
            match kind {
                BaseKind::Named(entity) => {
                    match decls.find_field(entity, name) {
                        Some(field) => {
                            proof {
                                let i = choose|i: int|
                                    0 <= i < decls.fields@.len() && decls.fields@[i] == field;
                                assert(this.tables@.has_ty(decls.fields@[i].ty));
                            }
                            this.note_entity(cause, field.entity);
                            let ghost one = *this;
                            let declared = F::substitute(this, cause, generics, field.ty);
                            let ghost two = *this;
                            proof {
                                lemma_extension(start.tables@, two.tables@, two.tables@);
                            }
                            let ty = F::apply_owner_perm(this, cause, owner_ty.perm, declared);
                            proof {
                                TypeChecker::lemma_grows(&start, &one, &two);
                                TypeChecker::lemma_grows(&start, &two, this);
                                TypeChecker::lemma_keeps_time(&start, &one, &two);
                                TypeChecker::lemma_keeps_time(&start, &two, this);
                                lemma_extension(start.tables@, this.tables@, this.tables@);
                                lemma_extension(
                                    subst_base(
                                        start.tables@,
                                        start.tables@.generics[generics.index as int],
                                        field.ty.base,
                                    ).1,
                                    two.tables@,
                                    this.tables@,
                                );
                            }
                            ty
                        },
                        None => {
                            this.report(cause);
                            F::error_type(this)
                        },
                    }
                },
                BaseKind::Error => F::error_type(this),
            }
        },
        Shallow::Rigid(_) => {
            this.report(cause);
            F::error_type(this)
        },
        Shallow::Unresolved(_) => F::error_type(this),
    }
}

/// The skeleton that the field `name` is declared with in an owner that
/// is seen as `seen`, with the generic arguments of the owner in the place
/// of the placeholders, as the tables `then` give it, and the tables that
/// hold it; nothing where the owner is no declared type or has no such
/// field.
pub open spec fn declared_field(
    then: InternersView,
    decls: &Declarations,
    seen: Shallow,
    name: u32,
) -> Option<(Base, InternersView)> {
    match seen {
        Shallow::Known { kind: BaseKind::Named(entity), generics, .. } => match decls.field_of(
            entity,
            name,
        ) {
            Some(field) => if generics.index < then.generics.len() {
                Some(subst_base(then, then.generics[generics.index as int], field.ty.base))
            } else {
                None
            },
            None => None,
        },
        _ => None,
    }
}

/// Whether the access `at` to the field `name` of an owner with the
/// skeleton `owner` has been carried out for an expression with the
/// skeleton `target`: an error is recorded at `at`; or the target or the
/// owner is the sentinel; or the owner is a declared type with such a
/// field, and the target has been made one with the skeleton of the
/// field, as the tables gave it at some earlier time, unless that
/// skeleton is the sentinel.
pub open spec fn looked_up(
    this: &TypeChecker,
    decls: &Declarations,
    owner: Base,
    name: u32,
    target: Base,
    at: Node,
) -> bool {
    ||| this.results.errors().contains(Error { location: at })
    ||| this.known(target) == Some(this.primitives.error)
    ||| this.seen_as(owner) matches Shallow::Known { kind: BaseKind::Error, .. }
    ||| exists|then: InternersView| #[trigger]
        then.extended_by(this.tables@) && found_in(this, decls, then, owner, name, target)
}

/// The owner is a declared type with the field `name`, the tables hold
/// the skeleton that `then` gives for the field, and the target has been
/// made one with it, unless that skeleton is the sentinel.
pub open spec fn found_in(
    this: &TypeChecker,
    decls: &Declarations,
    then: InternersView,
    owner: Base,
    name: u32,
    target: Base,
) -> bool {
    declared_field(then, decls, this.seen_as(owner), name) matches Some(found)
        && found.1.extended_by(this.tables@) && found.0.index < this.tables@.bases.len() && (
    this.agree(target, found.0) || this.known(found.0) == Some(this.primitives.error))
}

/// How a skeleton is seen stays, once it is seen as more than an
/// unresolved variable.
pub proof fn lemma_seen_stays(before: &TypeChecker, after: &TypeChecker, base: Base)
    requires
        before.wf(),
        after.wf(),
        TypeChecker::grows(before, after),
        base.index < before.tables@.bases.len(),
        !(before.seen_as(base) is Unresolved),
    ensures
        after.seen_as(base) == before.seen_as(base),
{
    lemma_extension(before.tables@, after.tables@, after.tables@);
    assert(after.tables@.bases[base.index as int] == before.tables@.bases[base.index as int]);
    match before.tables@.bases[base.index as int] {
        BaseData::Inferred(v) => {
            assert(before.unify.has(v));
            let b = before.unify.value_of(v)->Some_0;
            assert(after.unify.value_of(v) == Some(b));
            assert(after.tables@.bases[b.index as int] == before.tables@.bases[b.index as int]);
        },
        _ => {},
    }
}

/// A field access that has been carried out stays carried out.
pub proof fn lemma_looked_up_stays(
    before: &TypeChecker,
    after: &TypeChecker,
    decls: &Declarations,
    owner: Base,
    name: u32,
    target: Base,
    at: Node,
)
    requires
        before.wf(),
        after.wf(),
        TypeChecker::grows(before, after),
        owner.index < before.tables@.bases.len(),
        target.index < before.tables@.bases.len(),
        looked_up(before, decls, owner, name, target, at),
    ensures
        looked_up(after, decls, owner, name, target, at),
{
    let e = Error { location: at };
    TypeChecker::lemma_agree_stays(before, after, target, target);
    if before.results.errors().contains(e) {
        let k = choose|k: int| 0 <= k < before.results.errors().len() && before.results.errors()[k]
            == e;
        assert(after.results.errors().subrange(0, before.results.errors().len() as int)[k]
            == after.results.errors()[k]);
        assert(after.results.errors()[k] == e);
    } else if before.known(target) == Some(before.primitives.error) {
    } else if before.seen_as(owner) matches Shallow::Known { kind: BaseKind::Error, .. } {
        lemma_seen_stays(before, after, owner);
    } else {
        let then = choose|then: InternersView| #[trigger]
            then.extended_by(before.tables@) && found_in(before, decls, then, owner, name, target);
        lemma_extension(then, before.tables@, after.tables@);
        lemma_seen_stays(before, after, owner);
        let found = declared_field(then, decls, before.seen_as(owner), name)->Some_0;
        lemma_extension(found.1, before.tables@, after.tables@);
        TypeChecker::lemma_agree_stays(before, after, target, found.0);
        TypeChecker::lemma_agree_stays(before, after, found.0, target);
        assert(then.extended_by(after.tables@) && found_in(
            after,
            decls,
            then,
            owner,
            name,
            target,
        ));
    }
}

/// Does what the released operation `op` stands for.
///
/// A field access looks the field up in the owner's skeleton, which is
/// known by now, and equates the type of the field with the type that
/// the expression was given when the operation was suspended, and the
/// operation is noted as run. Afterwards the two skeletons are one, or
/// they clash; a clash leaves the
/// unification table alone and is an error at the cause of the operation,
/// unless one of the two is the sentinel.
pub fn execute<F: TypeCheckFamily>(this: &mut TypeChecker, decls: &Declarations, op: Op)
    requires
        old(this).wf(),
        decls.wf(old(this).tables@),
        op matches Op::FieldAccess { owner, target, .. } ==> old(this).has_ty(owner)
            && old(this).has_ty(target),
    ensures
        final(this).wf(),
        decls.wf(final(this).tables@),
        TypeChecker::calm_step(old(this), final(this)),
        final(this).ops == old(this).ops,
        final(this).ran@ == old(this).ran@.push(op),
        forall|k: int|
            old(this).results.errors().len() <= k < final(this).results.errors().len() ==> (
            #[trigger] final(this).results.errors()[k]).location == TypeChecker::op_cause(op),
        TypeChecker::keeps_time(old(this), final(this)),
        forall|bound: nat|
            #[trigger] old(this).located_within(bound) && TypeChecker::op_cause(op).index < bound
                ==> final(this).located_within(bound),
        match op {
            Op::FieldAccess { owner, name, target, cause } => {
                let seen = old(this).seen_as(owner.base);
                let found = field_base(old(this), decls, seen, name);
                let looked_up = field_errors(old(this), decls, seen, name, cause);
                &&& found.index < final(this).tables@.bases.len()
                &&& !final(this).clash(target.base, found) ==> final(this).agree(target.base, found)
                    && final(this).results.errors() == looked_up
                &&& final(this).clash(target.base, found) ==> final(this).unify == old(this).unify
                    && final(this).results.errors() == (if final(this).known(target.base) == Some(
                    final(this).primitives.error,
                ) || final(this).known(found) == Some(final(this).primitives.error) {
                    looked_up
                } else {
                    looked_up.push(Error { location: cause })
                })
                &&& !(seen is Unresolved) ==> self::looked_up(
                    final(this),
                    decls,
                    owner.base,
                    name,
                    target.base,
                    cause,
                )
            },
        },
{
    let ghost start = *this;
    this.ran = Ghost(this.ran@.push(op));
    let ghost noted = *this;
    proof {
        TypeChecker::lemma_grows(&start, &start, &start);
        TypeChecker::lemma_same_time(&start, this);
        assert(start.ran@ =~= this.ran@.subrange(0, start.ran@.len() as int));
        TypeChecker::lemma_older_parts(&start, this);
        assert(this.wf());
    }
    match op {
        Op::FieldAccess { owner, name, target, cause } => {
            let seen = this.shallow(owner.base);
            let found = field_type::<F>(this, decls, cause, owner, seen, name);
            let ghost one = *this;
            proof {
                lemma_extension(start.tables@, one.tables@, one.tables@);
                TypeChecker::lemma_grows(&start, &noted, &one);
                TypeChecker::lemma_keeps_time(&start, &noted, &one);
            }
            F::equate_types(this, cause, target, found);
            proof {
                TypeChecker::lemma_grows(&start, &one, this);
                TypeChecker::lemma_keeps_time(&start, &one, this);
                lemma_extension(one.tables@, this.tables@, this.tables@);
                assert(this.tables@.bases[target.base.index as int]
                    == one.tables@.bases[target.base.index as int]);
                assert(this.tables@.bases[found.base.index as int]
                    == one.tables@.bases[found.base.index as int]);
                if one.clash(target.base, found.base) {
                    assert(this.unify == one.unify);
                    assert(this.known(target.base) == one.known(target.base));
                    assert(this.known(found.base) == one.known(found.base));
                    assert(this.clash(target.base, found.base));
                } else {
                    assert(this.agree(target.base, found.base));
                    assert(!this.clash(target.base, found.base));
                }
                assert forall|bound: nat|
                    #[trigger] start.located_within(bound) && cause.index
                        < bound implies this.located_within(bound) by {
                    assert(one.located_within(bound));
                }
                if !(seen is Unresolved) {
                    TypeChecker::lemma_grows(&start, &one, this);
                    lemma_seen_stays(&start, this, owner.base);
                    let listed = field_errors(&start, decls, seen, name, cause);
                    let here = Error { location: cause };
                    if listed.len() > start.results.errors().len() {
                        assert(listed[start.results.errors().len() as int] == here);
                        assert(this.results.errors()[start.results.errors().len() as int] == here);
                    } else if this.clash(target.base, found.base) && !(this.known(target.base)
                        == Some(this.primitives.error) || this.known(found.base) == Some(
                        this.primitives.error,
                    )) {
                        assert(this.results.errors()[listed.len() as int] == here);
                    } else if declared_field(start.tables@, decls, seen, name) is Some && (
                    this.agree(target.base, found.base) || this.known(found.base) == Some(
                        this.primitives.error,
                    )) {
                        lemma_extension(start.tables@, start.tables@, this.tables@);
                        lemma_extension(
                            declared_field(start.tables@, decls, seen, name)->Some_0.1,
                            one.tables@,
                            this.tables@,
                        );
                        assert(start.tables@.extended_by(this.tables@) && found_in(
                            this,
                            decls,
                            start.tables@,
                            owner.base,
                            name,
                            target.base,
                        ));
                    }
                    assert(looked_up(this, decls, owner.base, name, target.base, cause));
                }
            }
        },
    }
}

/// Every suspended field access waits on the variable that the skeleton
/// of its owner is, and on nothing else.
pub open spec fn linked(this: &TypeChecker) -> bool {
    forall|at: OpIndex| #[trigger]
        this.ops.pending().contains_key(at) ==> (this.ops.pending()[at]
            matches Op::FieldAccess { owner, .. } ==> (this.tables@.bases[owner.base.index as int]
            matches BaseData::Inferred(v) && this.ops.waits()[at] == set![v]))
}

/// What running the operation `op` leaves behind.
pub open spec fn carried_out(this: &TypeChecker, decls: &Declarations, op: Op) -> bool {
    match op {
        Op::FieldAccess { owner, name, target, cause } => looked_up(
            this,
            decls,
            owner.base,
            name,
            target.base,
            cause,
        ),
    }
}

/// Every operation that was suspended in `first` is suspended in `after`
/// as it was, or has been carried out, or is one of `rest`.
pub open spec fn settles_but(
    first: &TypeChecker,
    after: &TypeChecker,
    decls: &Declarations,
    rest: Seq<(OpIndex, Op)>,
) -> bool {
    forall|at: OpIndex| #[trigger]
        first.ops.pending().contains_key(at) ==> {
            ||| after.ops.pending().contains_key(at) && after.ops.pending()[at]
                == first.ops.pending()[at]
            ||| carried_out(after, decls, first.ops.pending()[at])
            ||| exists|k: int| 0 <= k < rest.len() && (#[trigger] rest[k]).0 == at
        }
}

/// Every operation that was suspended in `first` is suspended in `after`
/// as it was, or has been carried out.
pub open spec fn settles(first: &TypeChecker, after: &TypeChecker, decls: &Declarations) -> bool {
    settles_but(first, after, decls, Seq::empty())
}

/// The operation `op` is suspended, or has been carried out.
pub open spec fn field_settled(this: &TypeChecker, decls: &Declarations, op: Op) -> bool {
    ||| carried_out(this, decls, op)
    ||| exists|at: OpIndex| #[trigger]
        this.ops.pending().contains_key(at) && this.ops.pending()[at] == op
}

/// What was carried out stays carried out over a step that leaves the
/// suspended operations alone.
pub proof fn lemma_settles_on(
    first: &TypeChecker,
    before: &TypeChecker,
    after: &TypeChecker,
    decls: &Declarations,
    rest: Seq<(OpIndex, Op)>,
)
    requires
        first.wf(),
        before.wf(),
        after.wf(),
        TypeChecker::grows(first, before),
        TypeChecker::grows(before, after),
        after.ops.pending() == before.ops.pending(),
        settles_but(first, before, decls, rest),
    ensures
        settles_but(first, after, decls, rest),
{
    lemma_extension(first.tables@, before.tables@, after.tables@);
    assert forall|at: OpIndex| #[trigger] first.ops.pending().contains_key(at) implies {
        ||| after.ops.pending().contains_key(at) && after.ops.pending()[at]
            == first.ops.pending()[at]
        ||| carried_out(after, decls, first.ops.pending()[at])
        ||| exists|k: int| 0 <= k < rest.len() && (#[trigger] rest[k]).0 == at
    } by {
        match first.ops.pending()[at] {
            Op::FieldAccess { owner, name, target, cause } => {
                assert(first.has_ty(owner) && first.has_ty(target));
                if carried_out(before, decls, first.ops.pending()[at]) {
                    lemma_looked_up_stays(before, after, decls, owner.base, name, target.base, cause);
                }
            },
        }
    }
}

/// Whether one of the operations in `pending` reports its errors at
/// `location`.
pub open spec fn reported_by(pending: Map<OpIndex, Op>, location: Node) -> bool {
    exists|at: OpIndex| #[trigger] pending.contains_key(at) && TypeChecker::op_cause(pending[at])
        == location
}

/// Whether every error of `errors` from position `from` on is located
/// where an operation in `pending` reports.
pub open spec fn errors_from(pending: Map<OpIndex, Op>, errors: Seq<Error>, from: int) -> bool {
    forall|k: int| from <= k < errors.len() ==> reported_by(pending, (#[trigger] errors[k]).location)
}

/// Releases and runs what has become ready, until nothing is.
///
/// For every variable that became resolved, in the order of the events,
/// the operations registered against it are released and run in the
/// order of their registration. What they resolve in turn is looked at
/// in the next round.
pub fn run_ready<F: TypeCheckFamily>(this: &mut TypeChecker, decls: &Declarations)
    requires
        old(this).wf(),
        decls.wf(old(this).tables@),
    ensures
        final(this).wf(),
        decls.wf(final(this).tables@),
        TypeChecker::calm_step(old(this), final(this)),
        TypeChecker::keeps_time(old(this), final(this)),
        final(this).unify.events() == Seq::<InferVar>::empty(),
        old(this).on_time() ==> final(this).ops.quiescent(final(this).unify)
            && final(this).ops.fired_resolved(final(this).unify),
        old(this).in_step() ==> final(this).in_step(),
        final(this).ops.pending().submap_of(old(this).ops.pending()),
        errors_from(
                old(this).ops.pending(),
                final(this).results.errors(),
                old(this).results.errors().len() as int,
            ),
        forall|bound: nat|
            #[trigger] old(this).located_within(bound) ==> final(this).located_within(bound),
        linked(old(this)) ==> linked(final(this)) && settles(old(this), final(this), decls),
{
    proof {
        TypeChecker::lemma_grows(this, this, this);
        TypeChecker::lemma_same_time(this, this);
    }
    loop
        invariant
            this.wf(),
            decls.wf(this.tables@),
            TypeChecker::calm_step(old(this), this),
            TypeChecker::keeps_time(old(this), this),
            old(this).in_step() ==> this.in_step(),
            old(this).wf(),
            linked(old(this)) ==> linked(this) && settles(old(this), this, decls),
            this.ops.pending().submap_of(old(this).ops.pending()),
            errors_from(
                old(this).ops.pending(),
                this.results.errors(),
                old(this).results.errors().len() as int,
            ),
            forall|bound: nat|
                #[trigger] old(this).located_within(bound) ==> this.located_within(bound),
        ensures
            this.unify.events() == Seq::<InferVar>::empty(),
        decreases this.ops.pending().dom().len(), this.unify.events().len(),
    {
        let ghost head = *this;
        proof {
            this.unify.lemma_events_resolved();
        }
        let events = this.unify.drain_events();
        proof {
            assert forall|extra: Seq<InferVar>| #[trigger]
                old(this).on_time_but(extra) implies this.on_time_but(extra + events@) by {
                assert(head.on_time_but(extra));
                assert forall|at: OpIndex, v: InferVar|
                    this.ops.pending().contains_key(at) && #[trigger] this.ops.waits()[at].contains(
                        v,
                    ) implies this.unify.has(v) && (this.unify.value_of(v) is Some
                    ==> this.unify.events().contains(v) || (extra + events@).contains(v)) by {
                    if this.unify.value_of(v) is Some {
                        if head.unify.events().contains(v) {
                            let k = choose|k: int|
                                0 <= k < events@.len() && events@[k] == v;
                            assert((extra + events@)[extra.len() + k] == v);
                        } else {
                            let k = choose|k: int| 0 <= k < extra.len() && extra[k] == v;
                            assert((extra + events@)[k] == v);
                        }
                    }
                }
            }
            if events@.len() == 0 {
                assert forall|extra: Seq<InferVar>| #[trigger]
                    old(this).on_time_but(extra) implies this.on_time_but(extra) by {
                    assert(extra + events@ =~= extra);
                }
            }
            assert(this.wf()) by {
                TypeChecker::lemma_older_parts(&head, this);
                assert(this.vars_tracked());
                assert(this.values_ok());
            }
            assert(TypeChecker::calm_step(&head, this));
            TypeChecker::lemma_grows(old(this), &head, this);
            if linked(old(this)) {
                lemma_settles_on(old(this), &head, this, decls, Seq::empty());
                assert(linked(this));
            }
            assert forall|bound: nat| #[trigger]
                old(this).located_within(bound) implies this.located_within(bound) by {
                assert(head.located_within(bound));
            }
        }
        if events.len() == 0 {
            break;
        }
        proof {
            assert(events@.subrange(0, events@.len() as int) =~= events@);
        }
        let mut i: usize = 0;
        while i < events.len()
            invariant
                i <= events.len(),
                this.wf(),
                decls.wf(this.tables@),
                TypeChecker::calm_step(old(this), this),
                forall|extra: Seq<InferVar>| #[trigger]
                    old(this).on_time_but(extra) ==> this.on_time_but(
                        extra + events@.subrange(i as int, events@.len() as int),
                    ),
                forall|bound: nat|
                    #[trigger] old(this).located_within(bound) ==> this.located_within(bound),
                old(this).in_step() ==> this.in_step(),
                old(this).wf(),
                linked(old(this)) ==> linked(this) && settles(old(this), this, decls),
                this.ops.pending().submap_of(old(this).ops.pending()),
                errors_from(
                old(this).ops.pending(),
                this.results.errors(),
                old(this).results.errors().len() as int,
            ),
                head.ops.wf(),
                forall|k: int|
                    0 <= k < events@.len() ==> this.unify.has(#[trigger] events@[k])
                        && this.unify.value_of(events@[k]) is Some,
                this.ops.pending().dom().len() <= head.ops.pending().dom().len(),
                this.ops.pending().dom().len() == head.ops.pending().dom().len()
                    ==> this.unify.events() == Seq::<InferVar>::empty(),
            decreases events.len() - i,
        {
            let ghost before = *this;
            let ready = this.ops.trigger(&this.unify, events[i]);
            let ghost triggered = *this;
            proof {
                assert(this.ops_ok()) by {
                    assert forall|at: OpIndex| #[trigger]
                        this.ops.pending().contains_key(at) implies (this.ops.pending()[at]
                        matches Op::FieldAccess { owner, target, .. } ==> this.has_ty(owner)
                        && this.has_ty(target)) by {
                        assert(before.ops.pending().contains_key(at));
                    }
                }
                assert(this.wf());
                assert(TypeChecker::calm_step(&before, this));
                TypeChecker::lemma_grows(old(this), &before, this);
                assert(this.ops.pending().submap_of(old(this).ops.pending())) by {
                    assert forall|at: OpIndex| #[trigger]
                        this.ops.pending().dom().contains(at) implies old(this).ops.pending().dom().contains(
                        at,
                    ) && this.ops.pending()[at] == old(this).ops.pending()[at] by {
                        assert(before.ops.pending().contains_key(at));
                        assert(before.ops.pending().dom().contains(at));
                        assert(old(this).ops.pending().dom().contains(at));
                    }
                }
                assert forall|k: int| 0 <= k < ready@.len() implies old(this).ops.pending().contains_key(
                    (#[trigger] ready@[k]).0,
                ) && old(this).ops.pending()[ready@[k].0] == ready@[k].1 by {
                    assert(before.ops.pending().contains_key(ready@[k].0));
                    assert(before.ops.pending().dom().contains(ready@[k].0));
                    assert(old(this).ops.pending().dom().contains(ready@[k].0));
                }
                assert forall|extra: Seq<InferVar>| #[trigger]
                    old(this).on_time_but(extra) implies this.on_time_but(
                    extra + events@.subrange(i as int + 1, events@.len() as int),
                ) by {
                    let rest = events@.subrange(i as int, events@.len() as int);
                    let next = events@.subrange(i as int + 1, events@.len() as int);
                    assert(before.on_time_but(extra + rest));
                    assert forall|k: int| 0 <= k < this.ops.fired().len() implies this.unify.has(
                        (#[trigger] this.ops.fired()[k]).var,
                    ) && this.unify.value_of(this.ops.fired()[k].var) is Some by {
                        if k < before.ops.fired().len() {
                            assert(this.ops.fired()[k] == before.ops.fired()[k]);
                        } else {
                            assert(this.ops.fired()[k] == Scheduler::firings(
                                ready@,
                                events@[i as int],
                            )[k - before.ops.fired().len()]);
                        }
                    }
                    assert forall|at: OpIndex, v: InferVar|
                        this.ops.pending().contains_key(at)
                            && #[trigger] this.ops.waits()[at].contains(
                            v,
                        ) implies this.unify.has(v) && (this.unify.value_of(v) is Some
                        ==> this.unify.events().contains(v) || (extra + next).contains(v)) by {
                        assert(before.ops.pending().contains_key(at));
                        assert(v != events@[i as int]);
                        if this.unify.value_of(v) is Some && !this.unify.events().contains(v) {
                            let k = choose|k: int|
                                0 <= k < (extra + rest).len() && (extra + rest)[k] == v;
                            if k < extra.len() {
                                assert((extra + next)[k] == v);
                            } else {
                                assert(rest[k - extra.len()] == v);
                                assert(k - extra.len() > 0);
                                assert(next[k - extra.len() - 1] == v);
                                assert((extra + next)[k - 1] == v);
                            }
                        }
                    }
                }
                assert forall|k: int| 0 <= k < ready@.len() implies (#[trigger] ready@[k]).1
                    matches Op::FieldAccess { owner, target, .. } ==> this.has_ty(owner)
                    && this.has_ty(target) by {
                    assert(before.ops.pending().contains_key(ready@[k].0));
                }
                assert forall|bound: nat, k: int|
                    #[trigger] old(this).located_within(bound) && 0 <= k
                        < ready@.len() implies TypeChecker::op_cause((#[trigger] ready@[k]).1).index
                    < bound by {
                    assert(before.located_within(bound));
                    assert(before.ops.pending().contains_key(ready@[k].0));
                }
                assert forall|bound: nat| #[trigger]
                    old(this).located_within(bound) implies this.located_within(bound) by {
                    assert(before.located_within(bound));
                    assert forall|at: OpIndex| #[trigger]
                        this.ops.pending().contains_key(at) implies TypeChecker::op_cause(
                        this.ops.pending()[at],
                    ).index < bound by {
                        assert(before.ops.pending().contains_key(at));
                    }
                }
            }
            proof {
                assert(this.ran@ =~= triggered.ran@ + ready@.take(0).map_values(
                    |r: (OpIndex, Op)| r.1,
                ));
                if linked(old(this)) {
                    before.ops.lemma_released_once();
                    this.ops.lemma_released_once();
                    assert(linked(this)) by {
                        assert forall|at: OpIndex| #[trigger]
                            this.ops.pending().contains_key(at) implies (this.ops.pending()[at]
                            matches Op::FieldAccess { owner, .. } ==> (
                        this.tables@.bases[owner.base.index as int] matches BaseData::Inferred(v)
                            && this.ops.waits()[at] == set![v])) by {
                            assert(before.ops.pending().contains_key(at));
                        }
                    }
                    assert forall|k: int| 0 <= k < ready@.len() implies ((#[trigger] ready@[k]).1
                        matches Op::FieldAccess { owner, .. } ==> !(this.seen_as(owner.base)
                        is Unresolved)) by {
                        let at = ready@[k].0;
                        let n = before.ops.fired().len() as int;
                        assert(before.ops.pending().contains_key(at));
                        assert(this.ops.fired()[n + k] == Scheduler::firings(
                            ready@,
                            events@[i as int],
                        )[k]);
                        assert(this.ops.fired()[n + k].op == at);
                        assert(this.ops.waits()[at].contains(events@[i as int]));
                    }
                    assert(settles_but(old(this), this, decls, ready@)) by {
                        assert forall|at: OpIndex| #[trigger]
                            old(this).ops.pending().contains_key(at) implies {
                            ||| this.ops.pending().contains_key(at) && this.ops.pending()[at]
                                == old(this).ops.pending()[at]
                            ||| carried_out(this, decls, old(this).ops.pending()[at])
                            ||| exists|k: int| 0 <= k < ready@.len() && (#[trigger] ready@[k]).0 == at
                        } by {
                            if before.ops.pending().contains_key(at) && before.ops.pending()[at]
                                == old(this).ops.pending()[at] {
                                if !this.ops.pending().contains_key(at) {
                                    assert(this.ops.waits().contains_key(at));
                                    this.ops.lemma_suspended_or_released(at);
                                    let k = choose|k: int|
                                        0 <= k < this.ops.fired().len() && (
                                        #[trigger] this.ops.fired()[k]).op == at;
                                    let n = before.ops.fired().len() as int;
                                    if k < n {
                                        assert(this.ops.fired()[k] == before.ops.fired()[k]);
                                    } else {
                                        assert(this.ops.fired()[k] == Scheduler::firings(
                                            ready@,
                                            events@[i as int],
                                        )[k - n]);
                                        assert(ready@[k - n].0 == at);
                                    }
                                } else {
                                    assert(this.ops.pending().dom().contains(at));
                                }
                            } else {
                                match old(this).ops.pending()[at] {
                                    Op::FieldAccess { owner, name, target, cause } => {
                                        assert(old(this).has_ty(owner) && old(this).has_ty(target));
                                        lemma_extension(
                                            old(this).tables@,
                                            before.tables@,
                                            this.tables@,
                                        );
                                        lemma_looked_up_stays(
                                            &before,
                                            this,
                                            decls,
                                            owner.base,
                                            name,
                                            target.base,
                                            cause,
                                        );
                                    },
                                }
                            }
                        }
                    }
                    assert(ready@.skip(0) =~= ready@);
                }
            }
            let mut j: usize = 0;
            while j < ready.len()
                invariant
                    j <= ready.len(),
                    i < events.len(),
                    this.wf(),
                    decls.wf(this.tables@),
                    TypeChecker::calm_step(old(this), this),
                    forall|extra: Seq<InferVar>| #[trigger]
                        old(this).on_time_but(extra) ==> this.on_time_but(
                            extra + events@.subrange(i as int + 1, events@.len() as int),
                        ),
                    forall|bound: nat|
                        #[trigger] old(this).located_within(bound) ==> this.located_within(bound),
                    forall|bound: nat, k: int|
                        #[trigger] old(this).located_within(bound) && 0 <= k < ready@.len()
                            ==> TypeChecker::op_cause((#[trigger] ready@[k]).1).index < bound,
                    this.ops == triggered.ops,
                    old(this).wf(),
                    linked(old(this)) ==> linked(this) && settles_but(
                        old(this),
                        this,
                        decls,
                        ready@.skip(j as int),
                    ),
                    linked(old(this)) ==> forall|k: int|
                        0 <= k < ready@.len() ==> ((#[trigger] ready@[k]).1
                            matches Op::FieldAccess { owner, .. } ==> !(this.seen_as(owner.base)
                            is Unresolved)),
                    this.ops.pending().submap_of(old(this).ops.pending()),
                    errors_from(
                old(this).ops.pending(),
                this.results.errors(),
                old(this).results.errors().len() as int,
            ),
                    forall|k: int|
                        0 <= k < ready@.len() ==> old(this).ops.pending().contains_key(
                            (#[trigger] ready@[k]).0,
                        ) && old(this).ops.pending()[ready@[k].0] == ready@[k].1,
                    this.ran@ == triggered.ran@ + ready@.take(j as int).map_values(
                        |r: (OpIndex, Op)| r.1,
                    ),
                    old(this).in_step() ==> triggered.ops.fired_ops() == triggered.ran@
                        + ready@.map_values(|r: (OpIndex, Op)| r.1),
                    forall|k: int|
                        0 <= k < ready@.len() ==> ((#[trigger] ready@[k]).1
                            matches Op::FieldAccess { owner, target, .. } ==> this.has_ty(owner)
                            && this.has_ty(target)),
                    forall|k: int|
                        0 <= k < events@.len() ==> this.unify.has(#[trigger] events@[k])
                            && this.unify.value_of(events@[k]) is Some,
                    ready@.len() == 0 ==> this.unify.events() == triggered.unify.events(),
                decreases ready.len() - j,
            {
                let ghost step = *this;
                let op = ready[j].1;
                execute::<F>(this, decls, op);
                proof {
                    assert forall|k: int|
                        old(this).results.errors().len() <= k
                            < this.results.errors().len() implies reported_by(
                        old(this).ops.pending(),
                        (#[trigger] this.results.errors()[k]).location,
                    ) by {
                        if k < step.results.errors().len() {
                            assert(this.results.errors()[k] == step.results.errors()[k]) by {
                                assert(step.results.errors()[k] == this.results.errors().subrange(
                                    0,
                                    step.results.errors().len() as int,
                                )[k]);
                            }
                            assert(reported_by(
                                old(this).ops.pending(),
                                step.results.errors()[k].location,
                            ));
                        } else {
                            assert(old(this).ops.pending().contains_key(ready@[j as int].0));
                        }
                    }
                    assert(ready@.take(j as int + 1) =~= ready@.take(j as int).push(ready@[j as int]));
                    if linked(old(this)) {
                        lemma_extension(step.tables@, this.tables@, this.tables@);
                        assert(linked(this)) by {
                            assert forall|at: OpIndex| #[trigger]
                                this.ops.pending().contains_key(at) implies (this.ops.pending()[at]
                                matches Op::FieldAccess { owner, .. } ==> (
                            this.tables@.bases[owner.base.index as int]
                                matches BaseData::Inferred(v) && this.ops.waits()[at] == set![v])) by {
                                assert(step.ops.pending().contains_key(at));
                                match step.ops.pending()[at] {
                                    Op::FieldAccess { owner, .. } => {
                                        assert(step.has_ty(owner));
                                    },
                                }
                            }
                        }
                        assert forall|k: int| 0 <= k < ready@.len() implies ((
                        #[trigger] ready@[k]).1 matches Op::FieldAccess { owner, .. } ==> !(
                        this.seen_as(owner.base) is Unresolved)) by {
                            match ready@[k].1 {
                                Op::FieldAccess { owner, .. } => {
                                    assert(step.has_ty(owner));
                                    lemma_seen_stays(&step, this, owner.base);
                                },
                            }
                        }
                        lemma_settles_on(old(this), &step, this, decls, ready@.skip(j as int));
                        let rest = ready@.skip(j as int);
                        let next = ready@.skip(j as int + 1);
                        assert(rest[0] == ready@[j as int]);
                        assert(carried_out(this, decls, ready@[j as int].1));
                        assert forall|at: OpIndex| #[trigger]
                            old(this).ops.pending().contains_key(at) implies {
                            ||| this.ops.pending().contains_key(at) && this.ops.pending()[at]
                                == old(this).ops.pending()[at]
                            ||| carried_out(this, decls, old(this).ops.pending()[at])
                            ||| exists|k: int| 0 <= k < next.len() && (#[trigger] next[k]).0 == at
                        } by {
                            if !(this.ops.pending().contains_key(at) && this.ops.pending()[at]
                                == old(this).ops.pending()[at]) && !carried_out(
                                this,
                                decls,
                                old(this).ops.pending()[at],
                            ) {
                                let k = choose|k: int|
                                    0 <= k < rest.len() && (#[trigger] rest[k]).0 == at;
                                if k == 0 {
                                    assert(old(this).ops.pending()[at] == ready@[j as int].1);
                                } else {
                                    assert(next[k - 1] == rest[k]);
                                }
                            }
                        }
                    }
                    assert(this.ran@ =~= triggered.ran@ + ready@.take(j as int + 1).map_values(
                        |r: (OpIndex, Op)| r.1,
                    ));
                    assert forall|extra: Seq<InferVar>| #[trigger]
                        old(this).on_time_but(extra) implies this.on_time_but(
                        extra + events@.subrange(i as int + 1, events@.len() as int),
                    ) by {
                        assert(step.on_time_but(
                            extra + events@.subrange(i as int + 1, events@.len() as int),
                        ));
                    }
                    assert forall|bound: nat| #[trigger]
                        old(this).located_within(bound) implies this.located_within(bound) by {
                        assert(step.located_within(bound));
                        assert(TypeChecker::op_cause(ready@[j as int].1).index < bound);
                    }
                    TypeChecker::lemma_grows(old(this), &step, this);
                    lemma_extension(step.tables@, this.tables@, this.tables@);
                    assert forall|k: int| 0 <= k < events@.len() implies this.unify.has(
                        #[trigger] events@[k],
                    ) && this.unify.value_of(events@[k]) is Some by {
                        assert(step.unify.has(events@[k]));
                    }
                }
                j = j + 1;
            }
            proof {
                assert(ready@.take(ready@.len() as int) =~= ready@);
                assert(ready@.skip(ready@.len() as int) =~= Seq::<(OpIndex, Op)>::empty());
            }
            i = i + 1;
        }
        proof {
            assert forall|extra: Seq<InferVar>| #[trigger]
                old(this).on_time_but(extra) implies this.on_time_but(extra) by {
                assert(extra + events@.subrange(events@.len() as int, events@.len() as int)
                    =~= extra);
            }
        }
    }
    proof {
        if old(this).on_time() {
            assert(this.on_time_but(Seq::empty()));
            assert forall|x: OpIndex, w: InferVar|
                this.ops.pending().contains_key(x) && #[trigger] this.ops.waits()[x].contains(
                    w,
                ) implies this.unify.value_of(w) is None by {
                if this.unify.value_of(w) is Some {
                    assert(this.unify.events().contains(w) || Seq::<InferVar>::empty().contains(w));
                }
            }
        }
    }
}

/// What the type `ty` of the node `n` has to do with the types of the
/// nodes that `n` is built from, for the kinds of expression whose type
/// is told here.
///
/// A literal, the unit value, an assignment and a reported error have the
/// type that their kind says. A read of a variable has the skeleton of
/// the variable, or the sentinel type with an error where the variable
/// had no type. The value of an assignment and the variable have been
/// made one, or an error is recorded at the assignment, or one of them is
/// the sentinel. A sequence and a `let` have the type of
/// their last part, and the variable of a `let` has the type of the
/// initializer, or a type of its own where there is none, unless an error
/// is recorded at the `let`. A conditional whose arms have been made one has the
/// skeleton of its first arm; a conditional whose arms clash has the
/// sentinel type, and an error is recorded at it, unless an arm is the
/// sentinel itself; its condition has been made one with the boolean
/// type, or clashes with it and an error is recorded at the condition,
/// unless the condition is the sentinel. A call has the result type that
/// the signature of its function declares, or the sentinel type where the
/// function has no signature, and its arguments are what the function
/// takes. A field access is suspended until the skeleton of its owner is
/// known, or has been carried out.
pub open spec fn rule_for(
    this: &TypeChecker,
    decls: &Declarations,
    body: &FnBody,
    n: int,
    ty: Ty,
) -> bool {
    let types = this.results.types();
    let p = this.primitives;
    match body.expressions@[n] {
        Expression::Literal { kind } => ty.base == (match kind {
            LiteralKind::Bool => p.boolean,
            LiteralKind::Int => p.integer,
            LiteralKind::Uint => p.unsigned,
        }),
        Expression::Unit => ty.base == p.unit,
        Expression::Error => ty.base == p.error,
        Expression::Place { variable, .. } => {
            ||| ty.base == p.error && this.results.errors().contains(
                Error { location: Node { index: n as u32 } },
            )
            ||| this.variables@[variable as int] matches Some(place) && ty.base == place.base
        },
        Expression::Assignment { variable, value } => {
            let v = types[value.index].base;
            &&& ty.base == p.unit
            &&& {
                ||| this.results.errors().contains(Error { location: Node { index: n as u32 } })
                ||| this.variables@[variable as int] matches Some(place) && (this.agree(
                    v,
                    place.base,
                ) || (this.clash(v, place.base) && (this.known(v) == Some(p.error) || this.known(
                    place.base,
                ) == Some(p.error))))
            }
        },
        Expression::Sequence { second, .. } => ty == types[second.index],
        Expression::Let { variable, initializer, body: last } => {
            &&& ty == types[last.index]
            &&& {
                ||| this.results.errors().contains(Error { location: Node { index: n as u32 } })
                ||| match initializer {
                    Some(init) => this.variables@[variable as int] == Some(types[init.index]),
                    None => this.variables@[variable as int] is Some,
                }
            }
        },
        Expression::If { condition, if_true, if_false } => {
            let t = types[if_true.index].base;
            let f = types[if_false.index].base;
            &&& (ty.base == t && this.agree(t, f)) || (ty.base == p.error && this.clash(t, f))
            &&& this.clash(t, f) ==> this.results.errors().contains(
                Error { location: Node { index: n as u32 } },
            ) || this.known(t) == Some(p.error) || this.known(f) == Some(p.error)
            &&& this.met(types[condition.index].base, p.boolean, condition)
        },
        Expression::Call { function, arguments } => {
            &&& match decls.output_of(function) {
                Some(output) => ty == output,
                None => ty.base == p.error,
            }
            &&& arguments_met(this, decls, body, n)
        },
        Expression::Field { owner, name } => field_settled(
            this,
            decls,
            Op::FieldAccess {
                owner: types[owner.index],
                name,
                target: ty,
                cause: Node { index: n as u32 },
            },
        ),
    }
}

/// Whether the arguments of the call `n` are what its function takes: the
/// function has a signature with as many parameters as the call has
/// arguments, and every argument has been made one with its parameter, or
/// clashes with it and an error is recorded at the argument, unless one
/// of the two is the sentinel; or else an error is recorded at the call.
pub open spec fn arguments_met(this: &TypeChecker, decls: &Declarations, body: &FnBody, n: int) -> bool {
    let types = this.results.types();
    let here = Error { location: Node { index: n as u32 } };
    body.expressions@[n] matches Expression::Call { function, arguments } ==> (
    match decls.signature_of(function) {
        Some(s) => if decls.signatures@[s].inputs@.len() == arguments@.len() {
            forall|k: int|
                0 <= k < arguments@.len() ==> this.met(
                    types[(#[trigger] arguments@[k]).index].base,
                    decls.signatures@[s].inputs@[k].base,
                    arguments@[k],
                )
        } else {
            this.results.errors().contains(here)
        },
        None => this.results.errors().contains(here),
    })
}

/// Every typed node has a type that its rule allows.
pub open spec fn rules_hold(this: &TypeChecker, decls: &Declarations, body: &FnBody) -> bool {
    forall|n: int|
        0 <= n < body.len() && #[trigger] this.results.types().contains_key(n as u32) ==> rule_for(
            this,
            decls,
            body,
            n,
            this.results.types()[n as u32],
        )
}

/// An expression at which an error needs no further cause to be told
/// here: a read of a variable, a field access, an assignment and a `let`
/// have causes of their own.
pub open spec fn open_kind(e: Expression) -> bool {
    e is Place || e is Field || e is Assignment || e is Let
}

/// The node `n` is a call of a function that has no signature, or that
/// takes another number of arguments than the call has.
pub open spec fn call_broken(decls: &Declarations, body: &FnBody, n: int) -> bool {
    body.expressions@[n] matches Expression::Call { function, arguments } && (
    match decls.signature_of(function) {
        Some(s) => decls.signatures@[s].inputs@.len() != arguments@.len(),
        None => true,
    })
}

/// The arms of the conditional `n` clash.
pub open spec fn arms_clash(this: &TypeChecker, body: &FnBody, n: int) -> bool {
    let types = this.results.types();
    &&& body.expressions@[n] matches Expression::If { if_true, if_false, .. }
    &&& types.contains_key(if_true.index)
    &&& types.contains_key(if_false.index)
    &&& this.clash(types[if_true.index].base, types[if_false.index].base)
}

/// The node `n` is the condition of the conditional `m`, and its type
/// clashes with the boolean type.
pub open spec fn condition_clash(this: &TypeChecker, body: &FnBody, m: int, n: int) -> bool {
    let types = this.results.types();
    &&& 0 <= m < body.len()
    &&& body.expressions@[m] matches Expression::If { condition, .. }
    &&& condition.index == n
    &&& types.contains_key(n as u32)
    &&& this.clash(types[n as u32].base, this.primitives.boolean)
}

/// The node `n` is the argument `k` of the call `m`, whose function has a
/// signature with as many parameters as the call has arguments, and its
/// type clashes with the type of the parameter.
pub open spec fn argument_clash(
    this: &TypeChecker,
    decls: &Declarations,
    body: &FnBody,
    m: int,
    k: int,
    n: int,
) -> bool {
    let types = this.results.types();
    &&& 0 <= m < body.len()
    &&& body.expressions@[m] matches Expression::Call { function, arguments }
    &&& 0 <= k < arguments@.len()
    &&& arguments@[k].index == n
    &&& decls.signature_of(function) matches Some(s)
    &&& decls.signatures@[s].inputs@.len() == arguments@.len()
    &&& types.contains_key(n as u32)
    &&& this.clash(types[n as u32].base, decls.signatures@[s].inputs@[k].base)
}

/// Whether an error at the node `n` has a cause: the node is of a kind
/// that has causes of its own, or a rule that is told here is broken at
/// it. A call must have as many arguments as the signature of its
/// function has parameters, the root must be assignable to the declared
/// result, the arms of a conditional must agree, a condition must be a
/// boolean, and an argument must be assignable to its parameter.
pub open spec fn caused(this: &TypeChecker, decls: &Declarations, body: &FnBody, n: int) -> bool {
    let types = this.results.types();
    &&& 0 <= n < body.len()
    &&& {
        ||| open_kind(body.expressions@[n])
        ||| call_broken(decls, body, n)
        ||| n == body.root.index && types.contains_key(n as u32) && this.clash(
            types[n as u32].base,
            body.output.base,
        )
        ||| arms_clash(this, body, n)
        ||| exists|m: int| #[trigger] condition_clash(this, body, m, n)
        ||| exists|m: int, k: int| #[trigger] argument_clash(this, decls, body, m, k, n)
    }
}

/// Every error has a cause, and every suspended operation reports at a
/// field access.
pub open spec fn all_caused(this: &TypeChecker, decls: &Declarations, body: &FnBody) -> bool {
    &&& forall|k: int|
        0 <= k < this.results.errors().len() ==> caused(
            this,
            decls,
            body,
            (#[trigger] this.results.errors()[k]).location.index as int,
        )
    &&& forall|at: OpIndex| #[trigger]
        this.ops.pending().contains_key(at) ==> TypeChecker::op_cause(
            this.ops.pending()[at],
        ).index < body.len() && body.expressions@[TypeChecker::op_cause(
            this.ops.pending()[at],
        ).index as int] is Field
}

/// A cause stays a cause as the session goes on.
pub proof fn lemma_caused_stays(
    before: &TypeChecker,
    after: &TypeChecker,
    decls: &Declarations,
    body: &FnBody,
    n: int,
)
    requires
        before.wf(),
        after.wf(),
        decls.wf(before.tables@),
        before.has_ty(body.output),
        TypeChecker::grows(before, after),
        caused(before, decls, body, n),
    ensures
        caused(after, decls, body, n),
{
    let types = before.results.types();
    let later = after.results.types();
    if open_kind(body.expressions@[n]) {
    } else if call_broken(decls, body, n) {
    } else if n == body.root.index && types.contains_key(n as u32) && before.clash(
        types[n as u32].base,
        body.output.base,
    ) {
        assert(types.dom().contains(n as u32));
        assert(later.dom().contains(n as u32));
        assert(before.has_ty(types[n as u32]));
        TypeChecker::lemma_agree_stays(before, after, types[n as u32].base, body.output.base);
        TypeChecker::lemma_agree_stays(before, after, body.output.base, types[n as u32].base);
    } else if arms_clash(before, body, n) {
        match body.expressions@[n] {
            Expression::If { if_true, if_false, .. } => {
                assert(types.dom().contains(if_true.index));
                assert(later.dom().contains(if_true.index));
                assert(types.dom().contains(if_false.index));
                assert(later.dom().contains(if_false.index));
                assert(before.has_ty(types[if_true.index]));
                assert(before.has_ty(types[if_false.index]));
                TypeChecker::lemma_agree_stays(
                    before,
                    after,
                    types[if_true.index].base,
                    types[if_false.index].base,
                );
                TypeChecker::lemma_agree_stays(
                    before,
                    after,
                    types[if_false.index].base,
                    types[if_true.index].base,
                );
            },
            _ => {},
        }
    } else if exists|m: int| #[trigger] condition_clash(before, body, m, n) {
        let m = choose|m: int| #[trigger] condition_clash(before, body, m, n);
        assert(types.dom().contains(n as u32));
        assert(later.dom().contains(n as u32));
        assert(before.has_ty(types[n as u32]));
        TypeChecker::lemma_agree_stays(before, after, types[n as u32].base, before.primitives.boolean);
        TypeChecker::lemma_agree_stays(before, after, before.primitives.boolean, types[n as u32].base);
        assert(condition_clash(after, body, m, n));
    } else {
        let (m, k) = choose|m: int, k: int| #[trigger] argument_clash(before, decls, body, m, k, n);
        assert(argument_clash(before, decls, body, m, k, n));
        match body.expressions@[m] {
            Expression::Call { function, arguments } => {
                let s = decls.signature_of(function)->0;
                decls.lemma_found(function, 0, function, 0);
                let input = decls.signatures@[s].inputs@[k];
                assert(before.tables@.has_ty(input));
                assert(types.dom().contains(n as u32));
                assert(later.dom().contains(n as u32));
                assert(before.has_ty(types[n as u32]));
                TypeChecker::lemma_agree_stays(before, after, types[n as u32].base, input.base);
                TypeChecker::lemma_agree_stays(before, after, input.base, types[n as u32].base);
            },
            _ => {},
        }
        assert(argument_clash(after, decls, body, m, k, n));
    }
}

/// The state of a session in the middle of checking `body`.
pub open spec fn checking(this: &TypeChecker, decls: &Declarations, body: &FnBody) -> bool {
    &&& this.wf()
    &&& body.wf()
    &&& decls.wf(this.tables@)
    &&& decls.settled_in(this.tables@)
    &&& this.variables@.len() == body.variables
    &&& body.covers(this.results.types())
    &&& rules_hold(this, decls, body)
    &&& this.located_within(body.len())
    &&& this.on_time()
    &&& this.in_step()
    &&& this.has_ty(body.output)
    &&& all_caused(this, decls, body)
    &&& linked(this)
    &&& forall|k: u32| #[trigger] this.results.types().contains_key(k) ==> k < body.len()
}

/// A rule that held keeps holding as the session goes on.
pub proof fn lemma_rule_stays(
    before: &TypeChecker,
    after: &TypeChecker,
    decls: &Declarations,
    body: &FnBody,
    n: int,
    ty: Ty,
)
    requires
        before.wf(),
        after.wf(),
        body.wf(),
        TypeChecker::grows(before, after),
        0 <= n < body.len(),
        forall|k: int|
            0 <= k < children(body.expressions@[n]).len() ==> before.results.types().contains_key(
                (#[trigger] children(body.expressions@[n])[k]).index,
            ),
        before.variables@.len() == body.variables,
        decls.wf(before.tables@),
        before.has_ty(ty),
        settles(before, after, decls),
        rule_for(before, decls, body, n, ty),
    ensures
        rule_for(after, decls, body, n, ty),
{
    let here = Error { location: Node { index: n as u32 } };
    if before.results.errors().contains(here) {
        let k = choose|k: int| 0 <= k < before.results.errors().len() && before.results.errors()[k]
            == here;
        assert(after.results.errors().subrange(0, before.results.errors().len() as int)[k]
            == after.results.errors()[k]);
        assert(after.results.errors()[k] == here);
    }
    match body.expressions@[n] {
        Expression::Place { variable, .. } => {
            assert(crate::hir::named_variable(body.expressions@[n]) == Some(variable));
        },
        Expression::Assignment { variable, value } => {
            assert(crate::hir::named_variable(body.expressions@[n]) == Some(variable));
            assert(children(body.expressions@[n])[0] == value);
            assert(before.results.types().dom().contains(value.index));
            assert(after.results.types().dom().contains(value.index));
            assert(before.has_ty(before.results.types()[value.index]));
            match before.variables@[variable as int] {
                Some(place) => {
                    assert(before.has_ty(place));
                    let v = before.results.types()[value.index].base;
                    TypeChecker::lemma_agree_stays(before, after, v, place.base);
                    TypeChecker::lemma_agree_stays(before, after, place.base, v);
                },
                None => {},
            }
        },
        Expression::Sequence { first, second } => {
            assert(children(body.expressions@[n])[1] == second);
            assert(before.results.types().dom().contains(second.index));
            assert(after.results.types().dom().contains(second.index));
            assert(after.results.types()[second.index] == before.results.types()[second.index]);
        },
        Expression::Let { variable, initializer, body: last } => {
            assert(crate::hir::named_variable(body.expressions@[n]) == Some(variable));
            match initializer {
                Some(init) => {
                    assert(children(body.expressions@[n])[0] == init);
                    assert(children(body.expressions@[n])[1] == last);
                    assert(before.results.types().dom().contains(init.index));
                    assert(after.results.types().dom().contains(init.index));
                },
                None => {
                    assert(children(body.expressions@[n])[0] == last);
                },
            }
            if before.variables@[variable as int] is Some {
                assert(after.variables@[variable as int] == before.variables@[variable as int]);
            }
            assert(before.results.types().dom().contains(last.index));
            assert(after.results.types().dom().contains(last.index));
            assert(after.results.types()[last.index] == before.results.types()[last.index]);
        },
        Expression::Field { owner, name } => {
            assert(children(body.expressions@[n])[0] == owner);
            assert(before.results.types().dom().contains(owner.index));
            assert(after.results.types().dom().contains(owner.index));
            let owner_ty = before.results.types()[owner.index];
            assert(before.has_ty(owner_ty));
            let cause = Node { index: n as u32 };
            let op = Op::FieldAccess { owner: owner_ty, name, target: ty, cause };
            if carried_out(before, decls, op) {
                lemma_looked_up_stays(before, after, decls, owner_ty.base, name, ty.base, cause);
            } else {
                let at = choose|at: OpIndex| #[trigger]
                    before.ops.pending().contains_key(at) && before.ops.pending()[at] == op;
                assert(before.ops.pending().contains_key(at));
            }
        },
        Expression::Call { function, arguments } => {
            match decls.signature_of(function) {
                Some(s) => {
                    decls.lemma_found(function, 0, function, 0);
                    if decls.signatures@[s].inputs@.len() == arguments@.len() {
                        assert forall|k: int| 0 <= k < arguments@.len() implies after.met(
                            after.results.types()[(#[trigger] arguments@[k]).index].base,
                            decls.signatures@[s].inputs@[k].base,
                            arguments@[k],
                        ) by {
                            assert(children(body.expressions@[n])[k] == arguments@[k]);
                            assert(before.results.types().dom().contains(arguments@[k].index));
                            assert(after.results.types().dom().contains(arguments@[k].index));
                            assert(before.has_ty(before.results.types()[arguments@[k].index]));
                            assert(before.tables@.has_ty(decls.signatures@[s].inputs@[k]));
                            TypeChecker::lemma_met_stays(
                                before,
                                after,
                                before.results.types()[arguments@[k].index].base,
                                decls.signatures@[s].inputs@[k].base,
                                arguments@[k],
                            );
                        }
                    }
                },
                None => {},
            }
        },
        Expression::If { condition, if_true, if_false } => {
            assert(children(body.expressions@[n])[0] == condition);
            assert(before.results.types().dom().contains(condition.index));
            assert(after.results.types().dom().contains(condition.index));
            assert(before.has_ty(before.results.types()[condition.index]));
            TypeChecker::lemma_met_stays(
                before,
                after,
                before.results.types()[condition.index].base,
                before.primitives.boolean,
                condition,
            );
            assert(children(body.expressions@[n])[1] == if_true);
            assert(children(body.expressions@[n])[2] == if_false);
            assert(before.results.types().dom().contains(if_true.index));
            assert(before.results.types().dom().contains(if_false.index));
            assert(after.results.types().dom().contains(if_true.index));
            assert(after.results.types().dom().contains(if_false.index));
            assert(after.results.types()[if_true.index] == before.results.types()[if_true.index]);
            assert(after.results.types()[if_false.index] == before.results.types()[if_false.index]);
            let t = before.results.types()[if_true.index].base;
            let f = before.results.types()[if_false.index].base;
            assert(before.has_ty(before.results.types()[if_true.index]));
            assert(before.has_ty(before.results.types()[if_false.index]));
            TypeChecker::lemma_agree_stays(before, after, t, f);
            TypeChecker::lemma_agree_stays(before, after, f, t);
            let e = Error { location: Node { index: n as u32 } };
            if before.results.errors().contains(e) {
                let k = choose|k: int|
                    0 <= k < before.results.errors().len() && before.results.errors()[k] == e;
                assert(after.results.errors().subrange(0, before.results.errors().len() as int)[k]
                    == after.results.errors()[k]);
                assert(after.results.errors()[k] == e);
            }
        },
        _ => {},
    }
}

/// A step that records no type keeps the session in the middle of
/// checking.
pub proof fn lemma_checking_stays(
    before: &TypeChecker,
    after: &TypeChecker,
    decls: &Declarations,
    body: &FnBody,
)
    requires
        checking(before, decls, body),
        after.wf(),
        decls.wf(after.tables@),
        TypeChecker::grows(before, after),
        after.results.types() == before.results.types(),
        after.variables@.len() == body.variables,
        after.located_within(body.len()),
        TypeChecker::keeps_time(before, after),
        after.in_step(),
        forall|k: int|
            before.results.errors().len() <= k < after.results.errors().len() ==> caused(
                after,
                decls,
                body,
                (#[trigger] after.results.errors()[k]).location.index as int,
            ),
        forall|at: OpIndex| #[trigger]
            after.ops.pending().contains_key(at) ==> TypeChecker::op_cause(
                after.ops.pending()[at],
            ).index < body.len() && body.expressions@[TypeChecker::op_cause(
                after.ops.pending()[at],
            ).index as int] is Field,
        after.ops == before.ops || (linked(after) && settles(before, after, decls)),
    ensures
        checking(after, decls, body),
{
    lemma_extension(before.tables@, after.tables@, after.tables@);
    if after.ops == before.ops {
        assert(settles(before, after, decls));
        assert(linked(after)) by {
            assert forall|at: OpIndex| #[trigger]
                after.ops.pending().contains_key(at) implies (after.ops.pending()[at]
                matches Op::FieldAccess { owner, .. } ==> (
            after.tables@.bases[owner.base.index as int] matches BaseData::Inferred(v)
                && after.ops.waits()[at] == set![v])) by {
                assert(before.ops.pending().contains_key(at));
                match before.ops.pending()[at] {
                    Op::FieldAccess { owner, .. } => {
                        assert(before.has_ty(owner));
                    },
                }
            }
        }
    }
    assert(decls.settled_in(after.tables@)) by {
        assert forall|i: int| 0 <= i < decls.signatures@.len() implies !(after.tables@.bases[(
        #[trigger] decls.signatures@[i]).output.base.index as int] is Inferred) by {
            assert(before.tables@.has_ty(decls.signatures@[i].output));
        }
        assert forall|i: int, k: int|
            0 <= i < decls.signatures@.len() && 0 <= k < decls.signatures@[i].inputs@.len() implies !(
        after.tables@.bases[(#[trigger] decls.signatures@[i].inputs@[k]).base.index as int]
            is Inferred) by {
            assert(before.tables@.has_ty(decls.signatures@[i].inputs@[k]));
        }
    }
    assert forall|k: int| 0 <= k < after.results.errors().len() implies caused(
        after,
        decls,
        body,
        (#[trigger] after.results.errors()[k]).location.index as int,
    ) by {
        if k < before.results.errors().len() {
            assert(after.results.errors()[k] == before.results.errors()[k]) by {
                assert(before.results.errors()[k] == after.results.errors().subrange(
                    0,
                    before.results.errors().len() as int,
                )[k]);
            }
            lemma_caused_stays(
                before,
                after,
                decls,
                body,
                before.results.errors()[k].location.index as int,
            );
        }
    }
    assert forall|n: int|
        0 <= n < body.len() && #[trigger] after.results.types().contains_key(
            n as u32,
        ) implies rule_for(after, decls, body, n, after.results.types()[n as u32]) by {
        lemma_rule_stays(before, after, decls, body, n, before.results.types()[n as u32]);
    }
}

/// Running what is ready keeps the session in the middle of checking.
pub proof fn lemma_checking_after_ready(
    before: &TypeChecker,
    after: &TypeChecker,
    decls: &Declarations,
    body: &FnBody,
)
    requires
        checking(before, decls, body),
        after.wf(),
        decls.wf(after.tables@),
        TypeChecker::calm_step(before, after),
        TypeChecker::keeps_time(before, after),
        before.in_step() ==> after.in_step(),
        after.ops.pending().submap_of(before.ops.pending()),
        errors_from(before.ops.pending(), after.results.errors(), before.results.errors().len() as int),
        forall|bound: nat|
            #[trigger] before.located_within(bound) ==> after.located_within(bound),
        linked(before) ==> linked(after) && settles(before, after, decls),
    ensures
        checking(after, decls, body),
{
    assert(after.located_within(body.len()));
    assert forall|k: int|
        before.results.errors().len() <= k < after.results.errors().len() implies caused(
        after,
        decls,
        body,
        (#[trigger] after.results.errors()[k]).location.index as int,
    ) by {
        let location = after.results.errors()[k].location;
        assert(reported_by(before.ops.pending(), location));
        let at = choose|at: OpIndex| #[trigger]
            before.ops.pending().contains_key(at) && TypeChecker::op_cause(before.ops.pending()[at])
                == location;
        assert(before.ops.pending().contains_key(at));
    }
    assert forall|at: OpIndex| #[trigger]
        after.ops.pending().contains_key(at) implies TypeChecker::op_cause(
        after.ops.pending()[at],
    ).index < body.len() && body.expressions@[TypeChecker::op_cause(
        after.ops.pending()[at],
    ).index as int] is Field by {
        assert(after.ops.pending().dom().contains(at));
        assert(before.ops.pending().dom().contains(at));
        assert(before.ops.pending().contains_key(at));
    }
    lemma_checking_stays(before, after, decls, body);
}

/// Whether the node `n` of type `ty` has the permission, and the edges
/// between permissions are collected, that its kind asks for. A literal
/// and the unit value are owned. A read of a variable has the type of
/// the variable, or the permission that is written at it, with an edge
/// from that permission to the permission of the variable, noted at the
/// read; unless an error is recorded there. For a conditional: an edge
/// from the permission of each arm to the permission of the conditional,
/// noted at the conditional, and an edge each way between the permission
/// of the condition and the owned permission, noted at the condition. For an assignment: an edge from the permission of the
/// value to the permission of the variable, noted at the assignment,
/// unless an error is recorded there. For a call with as many arguments
/// as its function has parameters: an edge from the permission of each
/// argument to the permission of its parameter, noted at the argument.
pub open spec fn node_edges(
    this: &TypeChecker,
    decls: &Declarations,
    body: &FnBody,
    n: int,
    ty: Ty,
) -> bool {
    let types = this.results.types();
    let here = Node { index: n as u32 };
    match body.expressions@[n] {
        Expression::Literal { .. } => ty.perm == this.primitives.own,
        Expression::Unit => ty.perm == this.primitives.own,
        Expression::Place { perm, variable } => {
            ||| this.results.errors().contains(Error { location: here })
            ||| this.variables@[variable as int] matches Some(place) && (ty == place || (ty.base
                == place.base && ty.perm.index < this.tables@.perms.len()
                && this.tables@.perms[ty.perm.index as int] == PermData::Known(perm)
                && this.perm_less@.contains((ty.perm, place.perm, here))))
        },
        Expression::If { condition, if_true, if_false } => {
            &&& this.perm_less@.contains((types[if_true.index].perm, ty.perm, here))
            &&& this.perm_less@.contains((types[if_false.index].perm, ty.perm, here))
            &&& this.perm_less@.contains(
                (types[condition.index].perm, this.primitives.own, condition),
            )
            &&& this.perm_less@.contains(
                (this.primitives.own, types[condition.index].perm, condition),
            )
        },
        Expression::Assignment { variable, value } => {
            ||| this.results.errors().contains(Error { location: here })
            ||| this.variables@[variable as int] matches Some(place) && this.perm_less@.contains(
                (types[value.index].perm, place.perm, here),
            )
        },
        Expression::Call { function, arguments } => match decls.signature_of(function) {
            Some(s) => decls.signatures@[s].inputs@.len() == arguments@.len() ==> forall|k: int|
                0 <= k < arguments@.len() ==> this.perm_less@.contains(
                    (
                        types[(#[trigger] arguments@[k]).index].perm,
                        decls.signatures@[s].inputs@[k].perm,
                        arguments@[k],
                    ),
                ),
            None => true,
        },
        _ => true,
    }
}

/// The edges that the typed nodes ask for are collected.
pub open spec fn edges_noted(this: &TypeChecker, decls: &Declarations, body: &FnBody) -> bool {
    forall|n: int|
        0 <= n < body.len() && #[trigger] this.results.types().contains_key(n as u32) ==> node_edges(
            this,
            decls,
            body,
            n,
            this.results.types()[n as u32],
        )
}

/// What a sequence holds, every longer sequence holds.
proof fn lemma_held_on<T>(short: Seq<T>, long: Seq<T>, e: T)
    requires
        short.is_prefix_of(long),
        short.contains(e),
    ensures
        long.contains(e),
{
    let k = choose|k: int| 0 <= k < short.len() && short[k] == e;
    assert(long.subrange(0, short.len() as int)[k] == long[k]);
    assert(long[k] == e);
}

/// The edges of a node stay collected as the session goes on.
pub proof fn lemma_node_edges_stay(
    before: &TypeChecker,
    after: &TypeChecker,
    decls: &Declarations,
    body: &FnBody,
    n: int,
    ty: Ty,
)
    requires
        TypeChecker::grows(before, after),
        body.wf(),
        before.variables@.len() == body.variables,
        0 <= n < body.len(),
        forall|k: int|
            0 <= k < children(body.expressions@[n]).len() ==> before.results.types().contains_key(
                (#[trigger] children(body.expressions@[n])[k]).index,
            ),
        node_edges(before, decls, body, n, ty),
    ensures
        node_edges(after, decls, body, n, ty),
{
    let here = Node { index: n as u32 };
    match body.expressions@[n] {
        Expression::Place { perm, variable } => {
            assert(crate::hir::named_variable(body.expressions@[n]) == Some(variable));
            let e = Error { location: here };
            if before.results.errors().contains(e) {
                lemma_held_on(before.results.errors(), after.results.errors(), e);
            } else {
                let place = before.variables@[variable as int]->Some_0;
                assert(after.variables@[variable as int] == before.variables@[variable as int]);
                if ty != place {
                    lemma_extension(before.tables@, after.tables@, after.tables@);
                    lemma_held_on(before.perm_less@, after.perm_less@, (ty.perm, place.perm, here));
                }
            }
        },
        Expression::Assignment { variable, value } => {
            assert(crate::hir::named_variable(body.expressions@[n]) == Some(variable));
            assert(children(body.expressions@[n])[0] == value);
            assert(before.results.types().dom().contains(value.index));
            assert(after.results.types().dom().contains(value.index));
            let e = Error { location: here };
            if before.results.errors().contains(e) {
                lemma_held_on(before.results.errors(), after.results.errors(), e);
            } else {
                let place = before.variables@[variable as int]->Some_0;
                assert(after.variables@[variable as int] == before.variables@[variable as int]);
                lemma_held_on(
                    before.perm_less@,
                    after.perm_less@,
                    (before.results.types()[value.index].perm, place.perm, here),
                );
            }
        },
        Expression::Call { function, arguments } => {
            match decls.signature_of(function) {
                Some(s) => {
                    if decls.signatures@[s].inputs@.len() == arguments@.len() {
                        assert forall|k: int|
                            0 <= k < arguments@.len() implies after.perm_less@.contains(
                            (
                                after.results.types()[(#[trigger] arguments@[k]).index].perm,
                                decls.signatures@[s].inputs@[k].perm,
                                arguments@[k],
                            ),
                        ) by {
                            assert(children(body.expressions@[n])[k] == arguments@[k]);
                            assert(before.results.types().dom().contains(arguments@[k].index));
                            assert(after.results.types().dom().contains(arguments@[k].index));
                            lemma_held_on(
                                before.perm_less@,
                                after.perm_less@,
                                (
                                    before.results.types()[arguments@[k].index].perm,
                                    decls.signatures@[s].inputs@[k].perm,
                                    arguments@[k],
                                ),
                            );
                        }
                    }
                },
                None => {},
            }
        },
        Expression::If { condition, if_true, if_false } => {
            assert(children(body.expressions@[n])[1] == if_true);
            assert(children(body.expressions@[n])[2] == if_false);
            assert(before.results.types().dom().contains(if_true.index));
            assert(before.results.types().dom().contains(if_false.index));
            assert(after.results.types().dom().contains(if_true.index));
            assert(after.results.types().dom().contains(if_false.index));
            let t = before.results.types()[if_true.index];
            let f = before.results.types()[if_false.index];
            lemma_held_on(before.perm_less@, after.perm_less@, (t.perm, ty.perm, here));
            lemma_held_on(before.perm_less@, after.perm_less@, (f.perm, ty.perm, here));
            assert(children(body.expressions@[n])[0] == condition);
            assert(before.results.types().dom().contains(condition.index));
            assert(after.results.types().dom().contains(condition.index));
            let c = before.results.types()[condition.index];
            let own = before.primitives.own;
            lemma_held_on(before.perm_less@, after.perm_less@, (c.perm, own, condition));
            lemma_held_on(before.perm_less@, after.perm_less@, (own, c.perm, condition));
        },
        _ => {},
    }
}

/// The edges stay collected as the session goes on, where every node that
/// has got its type since has its edges.
pub proof fn lemma_edges_stay(
    before: &TypeChecker,
    after: &TypeChecker,
    decls: &Declarations,
    body: &FnBody,
)
    requires
        checking(before, decls, body),
        TypeChecker::grows(before, after),
        edges_noted(before, decls, body),
        forall|n: int|
            0 <= n < body.len() && #[trigger] after.results.types().contains_key(n as u32)
                && !before.results.types().contains_key(n as u32) ==> node_edges(
                after,
                decls,
                body,
                n,
                after.results.types()[n as u32],
            ),
    ensures
        edges_noted(after, decls, body),
{
    assert forall|n: int|
        0 <= n < body.len() && #[trigger] after.results.types().contains_key(
            n as u32,
        ) implies node_edges(after, decls, body, n, after.results.types()[n as u32]) by {
        if before.results.types().contains_key(n as u32) {
            assert(before.results.types().dom().contains(n as u32));
            assert(after.results.types()[n as u32] == before.results.types()[n as u32]);
            lemma_node_edges_stay(before, after, decls, body, n, before.results.types()[n as u32]);
        }
    }
}

impl TypeChecker {
    /// Gives the local variable `variable` the type `ty`. A variable gets
    /// its type once: one that has a type keeps it, and to bind it again
    /// is an error at `cause`.
    pub fn bind_variable(&mut self, variable: u32, ty: Ty, cause: Node)
        requires
            old(self).wf(),
            old(self).has_ty(ty),
            variable < old(self).variables@.len(),
        ensures
            final(self).wf(),
            TypeChecker::grows(old(self), final(self)),
            TypeChecker::keeps_time(old(self), final(self)),
            final(self).tables@ == old(self).tables@,
            final(self).unify == old(self).unify,
            final(self).ops == old(self).ops,
            final(self).ran@ == old(self).ran@,
            final(self).results.types() == old(self).results.types(),
            match old(self).variables@[variable as int] {
                None => final(self).variables@ == old(self).variables@.update(
                    variable as int,
                    Some(ty),
                ) && final(self).results == old(self).results,
                Some(_) => final(self).variables@ == old(self).variables@ && final(self).results.errors() == old(self).results.errors().push(Error { location: cause }),
            },
    {
        proof {
            TypeChecker::lemma_grows(self, self, self);
            TypeChecker::lemma_same_time(self, self);
        }
        match self.variables[variable as usize] {
            None => {
                self.variables.set(variable as usize, Some(ty));
                proof {
                    TypeChecker::lemma_same_time(old(self), self);
                }
            },
            Some(_) => {
                self.report(cause);
            },
        }
    }

    /// Suspends the access to the field `name` of an owner whose skeleton
    /// is the unresolved variable `v`. Where the scheduler takes no more
    /// operations, an error is reported at `cause`.
    pub fn suspend_field(&mut self, v: InferVar, owner: Ty, name: u32, target: Ty, cause: Node)
        requires
            old(self).wf(),
            old(self).unify.has(v),
            old(self).unify.value_of(v) is None,
            old(self).has_ty(owner),
            old(self).has_ty(target),
        ensures
            final(self).wf(),
            TypeChecker::calm_step(old(self), final(self)),
            TypeChecker::keeps_time(old(self), final(self)),
            final(self).tables@ == old(self).tables@,
            final(self).unify == old(self).unify,
            final(self).ran@ == old(self).ran@,
            old(self).in_step() ==> final(self).in_step(),
            old(self).ops.issued_count() < u64::MAX ==> final(self).results == old(self).results
                && exists|at: OpIndex|
                !old(self).ops.pending().contains_key(at) && #[trigger] final(self).ops.pending().contains_key(at) && final(self).ops.pending() == old(self).ops.pending().insert(at, Op::FieldAccess { owner, name, target, cause }) && final(self).ops.waits()[at] == set![v] && final(self).ops.waits() == old(self).ops.waits().insert(at, set![v]) && final(self).ops.blocked_on(v) == old(self).ops.blocked_on(v).push(at),
            old(self).ops.issued_count() >= u64::MAX ==> final(self).ops == old(self).ops && final(self).results.errors() == old(self).results.errors().push(Error { location: cause }),
            forall|bound: nat|
                #[trigger] old(self).located_within(bound) && cause.index < bound
                    ==> final(self).located_within(bound),
    {
        proof {
            TypeChecker::lemma_grows(self, self, self);
            TypeChecker::lemma_same_time(self, self);
        }
        let mut vars: Vec<InferVar> = Vec::new();
        vars.push(v);
        proof {
            assert(vars@[0] == v);
        }
        let ghost before = *self;
        let op = Op::FieldAccess { owner, name, target, cause };
        match self.ops.suspend(&self.unify, &vars, op) {
            Some(at) => {
                proof {
                    assert(crate::ops::unresolved_among(self.unify, vars@) =~= set![v]) by {
                        assert(vars@.contains(v));
                    }
                    assert(self.ops.blocked_on(v) =~= before.ops.blocked_on(v).push(at)) by {
                        reveal_with_fuel(Scheduler::occurrences, 2);
                        assert(Scheduler::occurrences(vars@, v, 1) == 1);
                        assert(Seq::new(1, |k: int| at) =~= seq![at]);
                    }
                    assert(self.ops.pending().contains_key(at));
                    if before.in_step() {
                        before.ops.lemma_released_once();
                        assert(self.ops.fired_ops() =~= before.ops.fired_ops()) by {
                            assert forall|k: int|
                                0 <= k < before.ops.fired().len() implies self.ops.ever()[(
                            #[trigger] before.ops.fired()[k]).op] == before.ops.ever()[before.ops.fired()[k].op] by {
                                assert(before.ops.waits().contains_key(before.ops.fired()[k].op));
                            }
                        }
                    }
                    assert forall|x: OpIndex| #[trigger]
                        self.ops.pending().contains_key(x) implies (self.ops.pending()[x]
                        matches Op::FieldAccess { owner, target, .. } ==> self.has_ty(owner)
                        && self.has_ty(target)) by {
                        if x != at {
                            assert(before.ops.pending().contains_key(x));
                        }
                    }
                    assert forall|extra: Seq<InferVar>| #[trigger]
                        before.on_time_but(extra) implies self.on_time_but(extra) by {
                        assert forall|x: OpIndex, w: InferVar|
                            self.ops.pending().contains_key(x)
                                && #[trigger] self.ops.waits()[x].contains(
                                w,
                            ) implies self.unify.has(w) && (self.unify.value_of(w) is Some
                            ==> self.unify.events().contains(w) || extra.contains(w)) by {
                            if x != at {
                                assert(before.ops.pending().contains_key(x));
                                assert(before.ops.waits()[x].contains(w));
                            } else {
                                assert(vars@.contains(w));
                                assert(w == v);
                            }
                        }
                    }
                    assert forall|bound: nat|
                        #[trigger] before.located_within(bound) && cause.index
                            < bound implies self.located_within(bound) by {
                        assert forall|x: OpIndex| #[trigger]
                            self.ops.pending().contains_key(x) implies TypeChecker::op_cause(
                            self.ops.pending()[x],
                        ).index < bound by {
                            if x != at {
                                assert(before.ops.pending().contains_key(x));
                            }
                        }
                    }
                }
            },
            None => {
                self.report(cause);
            },
        }
    }

    /// At the end of a round, every operation that was suspended on a
    /// variable which is resolved by now has been released exactly once,
    /// through a variable that was resolved when it was released, and was
    /// run when its turn among the released ones came; and no operation
    /// was released through a variable that is still unresolved.
    pub proof fn lemma_released_on_time(&self, at: OpIndex, v: InferVar)
        requires
            self.wf(),
            self.on_time(),
            self.in_step(),
            self.unify.events() == Seq::<InferVar>::empty(),
            self.ops.waits().contains_key(at),
            self.ops.waits()[at].contains(v),
        ensures
            self.ran@.len() == self.ops.fired().len(),
            self.unify.value_of(v) is Some ==> exists|k: int|
                0 <= k < self.ops.fired().len() && (#[trigger] self.ops.fired()[k]).op == at
                    && self.ran@[k] == self.ops.ever()[at] && self.unify.value_of(
                    self.ops.fired()[k].var,
                ) is Some && forall|j: int|
                    0 <= j < self.ops.fired().len() && j != k ==> (#[trigger] self.ops.fired()[j]).op
                        != at,
            self.unify.value_of(v) is None ==> forall|k: int|
                0 <= k < self.ops.fired().len() ==> (#[trigger] self.ops.fired()[k]).var != v,
    {
        assert(self.ops.quiescent(self.unify)) by {
            assert forall|x: OpIndex, w: InferVar|
                self.ops.pending().contains_key(x) && #[trigger] self.ops.waits()[x].contains(
                    w,
                ) implies self.unify.value_of(w) is None by {
                if self.unify.value_of(w) is Some {
                    assert(self.unify.events().contains(w) || Seq::<InferVar>::empty().contains(w));
                }
            }
        }
        self.ops.lemma_resolution_triggers_once(self.unify, at, v);
    }
}

/// Records the type `ty` for the node `n`, whose parts are checked.
pub fn conclude(this: &mut TypeChecker, decls: &Declarations, body: &FnBody, n: Node, ty: Ty)
    requires
        checking(old(this), decls, body),
        n.index < body.len(),
        !old(this).results.types().contains_key(n.index),
        old(this).has_ty(ty),
        rule_for(old(this), decls, body, n.index as int, ty),
        forall|k: int|
            0 <= k < children(body.expressions@[n.index as int]).len()
                ==> old(this).results.types().contains_key(
                (#[trigger] children(body.expressions@[n.index as int])[k]).index,
            ),
    ensures
        checking(final(this), decls, body),
        TypeChecker::grows(old(this), final(this)),
        final(this).results.types() == old(this).results.types().insert(n.index, ty),
        final(this).variables@ == old(this).variables@,
{
    let ghost before = *this;
    proof {
        TypeChecker::lemma_grows(this, this, this);
    }
    this.results.record_ty(n, ty);
    proof {
        TypeChecker::lemma_same_time(&before, this);
        assert(this.types_ok());
        assert(this.wf());
        assert(TypeChecker::grows(&before, this));
        assert forall|k: int| 0 <= k < this.results.errors().len() implies caused(
            this,
            decls,
            body,
            (#[trigger] this.results.errors()[k]).location.index as int,
        ) by {
            lemma_caused_stays(
                &before,
                this,
                decls,
                body,
                before.results.errors()[k].location.index as int,
            );
        }
        assert(TypeChecker::grows(&before, this));
        assert forall|m: int|
            0 <= m < body.len() && #[trigger] this.results.types().contains_key(
                m as u32,
            ) implies rule_for(this, decls, body, m, this.results.types()[m as u32]) by {
            assert(settles(&before, this, decls));
            if m == n.index {
                lemma_rule_stays(&before, this, decls, body, m, ty);
            } else {
                assert(before.results.types().contains_key(m as u32));
                lemma_rule_stays(&before, this, decls, body, m, before.results.types()[m as u32]);
            }
        }
        assert(body.covers(this.results.types())) by {
            assert forall|m: int, k: int|
                0 <= m < body.expressions@.len() && this.results.types().contains_key(m as u32)
                    && 0 <= k < children(
                    body.expressions@[m],
                ).len() implies this.results.types().contains_key(
                (#[trigger] children(body.expressions@[m])[k]).index,
            ) by {
                if m != n.index {
                    assert(before.results.types().contains_key(
                        children(body.expressions@[m])[k].index,
                    ));
                }
            }
        }
    }
}

/// The type of a read of the local variable `variable` with the
/// permission `perm`. A variable that has no type yet is an error at `n`.
pub fn place_type<F: TypeCheckFamily>(
    this: &mut TypeChecker,
    decls: &Declarations,
    body: &FnBody,
    n: Node,
    perm: PermKind,
    variable: u32,
) -> (ty: Ty)
    requires
        checking(old(this), decls, body),
        n.index < body.len(),
        variable < body.variables,
        body.expressions@[n.index as int] is Place,
    ensures
        checking(final(this), decls, body),
        TypeChecker::calm_step(old(this), final(this)),
        final(this).has_ty(ty),
        match old(this).variables@[variable as int] {
            Some(place_ty) => ty.base == place_ty.base && final(this).results == old(this).results,
            None => ty.base == final(this).primitives.error && final(this).results.errors()
                == old(this).results.errors().push(Error { location: n }),
        },
        F::collects() ==> (old(this).variables@[variable as int] matches Some(place_ty) ==> ty
            == place_ty || (ty.perm.index < final(this).tables@.perms.len()
            && final(this).tables@.perms[ty.perm.index as int] == PermData::Known(perm)
            && final(this).perm_less@.contains((ty.perm, place_ty.perm, n)))),
{
    let ghost start = *this;
    match this.variables[variable as usize] {
        Some(place_ty) => {
            let ty = F::apply_user_perm(this, n, perm, place_ty);
            proof {
                lemma_extension(start.tables@, this.tables@, this.tables@);
                lemma_checking_stays(&start, this, decls, body);
            }
            ty
        },
        None => {
            this.report(n);
            proof {
                lemma_checking_stays(&start, this, decls, body);
            }
            F::error_type(this)
        },
    }
}

/// Checks that a value of type `value_ty` can be assigned to the local
/// variable `variable`: the two skeletons are made one, and what that
/// makes ready is run. A clash is an error at `n`, unless one of the two
/// is the sentinel; so is a variable that has no type. The assignment
/// itself has the unit type.
pub fn assign_type<F: TypeCheckFamily>(
    this: &mut TypeChecker,
    decls: &Declarations,
    body: &FnBody,
    n: Node,
    variable: u32,
    value_ty: Ty,
) -> (ty: Ty)
    requires
        checking(old(this), decls, body),
        n.index < body.len(),
        variable < body.variables,
        body.expressions@[n.index as int] is Assignment,
        old(this).has_ty(value_ty),
    ensures
        checking(final(this), decls, body),
        TypeChecker::calm_step(old(this), final(this)),
        final(this).has_ty(ty),
        ty.base == final(this).primitives.unit,
        match old(this).variables@[variable as int] {
            Some(place_ty) => {
                &&& final(this).unify.events() == Seq::<InferVar>::empty()
                &&& final(this).ops.quiescent(final(this).unify)
                &&& !old(this).clash(value_ty.base, place_ty.base) ==> final(this).agree(
                    value_ty.base,
                    place_ty.base,
                )
                &&& old(this).clash(value_ty.base, place_ty.base) ==> final(this).clash(
                    value_ty.base,
                    place_ty.base,
                ) && old(this).errors_after_clash(n, value_ty.base, place_ty.base).is_prefix_of(
                    final(this).results.errors(),
                )
            },
            None => final(this).results.errors() == old(this).results.errors().push(
                Error { location: n },
            ) && final(this).unify == old(this).unify && final(this).ops == old(this).ops,
        },
        F::collects() ==> (old(this).variables@[variable as int] matches Some(place_ty)
            ==> final(this).perm_less@.contains((value_ty.perm, place_ty.perm, n))),
{
    let ghost start = *this;
    match this.variables[variable as usize] {
        Some(place_ty) => {
            proof {
                assert(start.has_ty(place_ty));
            }
            F::require_assignable(this, n, value_ty, place_ty);
            let ghost one = *this;
            proof {
                if F::collects() {
                    assert(one.perm_less@[start.perm_less@.len() as int] == (
                        value_ty.perm,
                        place_ty.perm,
                        n,
                    ));
                }
                lemma_extension(start.tables@, one.tables@, one.tables@);
                lemma_checking_stays(&start, &one, decls, body);
                TypeChecker::lemma_agree_stays(&start, &one, value_ty.base, place_ty.base);
                TypeChecker::lemma_agree_stays(&start, &one, place_ty.base, value_ty.base);
            }
            run_ready::<F>(this, decls);
            proof {
                TypeChecker::lemma_grows(&start, &one, this);
                lemma_checking_after_ready(&one, this, decls, body);
                TypeChecker::lemma_agree_stays(&one, this, value_ty.base, place_ty.base);
                TypeChecker::lemma_agree_stays(&one, this, place_ty.base, value_ty.base);
                if F::collects() {
                    lemma_held_on(
                        one.perm_less@,
                        this.perm_less@,
                        (value_ty.perm, place_ty.perm, n),
                    );
                }
            }
        },
        None => {
            this.report(n);
            proof {
                lemma_checking_stays(&start, this, decls, body);
            }
        },
    }
    F::unit_type(this)
}

/// Checks that the condition of a conditional, whose type is `found`, is
/// a boolean: the skeleton of `found` is made one with the boolean
/// skeleton, and what that makes ready is run. A clash is an error at the
/// condition, unless the condition has the sentinel type.
pub fn check_condition<F: TypeCheckFamily>(
    this: &mut TypeChecker,
    decls: &Declarations,
    body: &FnBody,
    n: Node,
    condition: Node,
    found: Ty,
)
    requires
        checking(old(this), decls, body),
        n.index < body.len(),
        body.expressions@[n.index as int] matches Expression::If { condition: c, .. } && c
            == condition,
        condition.index < body.len(),
        old(this).results.types().contains_key(condition.index),
        old(this).results.types()[condition.index] == found,
        old(this).has_ty(found),
    ensures
        checking(final(this), decls, body),
        TypeChecker::calm_step(old(this), final(this)),
        final(this).unify.events() == Seq::<InferVar>::empty(),
        final(this).ops.quiescent(final(this).unify),
        !old(this).clash(found.base, old(this).primitives.boolean) ==> final(this).agree(
            found.base,
            final(this).primitives.boolean,
        ),
        old(this).clash(found.base, old(this).primitives.boolean) ==> old(this).errors_after_clash(
            condition,
            found.base,
            old(this).primitives.boolean,
        ).is_prefix_of(final(this).results.errors()),
        final(this).met(found.base, final(this).primitives.boolean, condition),
        F::collects() ==> final(this).perm_less@.contains(
            (found.perm, final(this).primitives.own, condition),
        ) && final(this).perm_less@.contains((final(this).primitives.own, found.perm, condition)),
{
    let ghost start = *this;
    let boolean = F::boolean_type(this);
    F::equate_types(this, condition, found, boolean);
    let ghost one = *this;
    proof {
        if F::collects() {
            let k = start.perm_less@.len() as int;
            assert(one.perm_less@[k] == (found.perm, boolean.perm, condition));
            assert(one.perm_less@[k + 1] == (boolean.perm, found.perm, condition));
        }
        lemma_extension(start.tables@, one.tables@, one.tables@);
        TypeChecker::lemma_agree_stays(&start, &one, found.base, boolean.base);
        TypeChecker::lemma_agree_stays(&start, &one, boolean.base, found.base);
        if start.clash(found.base, boolean.base) {
            assert(condition_clash(&one, body, n.index as int, condition.index as int));
            if !(start.known(found.base) == Some(start.primitives.error) || start.known(
                boolean.base,
            ) == Some(start.primitives.error)) {
                let k = start.results.errors().len() as int;
                assert(one.results.errors()[k] == Error { location: condition });
            }
        }
        assert(one.met(found.base, boolean.base, condition));
        lemma_checking_stays(&start, &one, decls, body);
    }
    run_ready::<F>(this, decls);
    proof {
        TypeChecker::lemma_grows(&start, &one, this);
        lemma_checking_after_ready(&one, this, decls, body);
        TypeChecker::lemma_agree_stays(&one, this, found.base, boolean.base);
        TypeChecker::lemma_met_stays(&one, this, found.base, boolean.base, condition);
        if F::collects() {
            lemma_held_on(one.perm_less@, this.perm_less@, (found.perm, boolean.perm, condition));
            lemma_held_on(one.perm_less@, this.perm_less@, (boolean.perm, found.perm, condition));
        }
    }
}

/// The type of the conditional `n` whose arms have the types `true_ty`
/// and `false_ty`: their least upper bound, or the sentinel where there
/// is none.
pub fn join_arms<F: TypeCheckFamily>(
    this: &mut TypeChecker,
    decls: &Declarations,
    body: &FnBody,
    n: Node,
    true_ty: Ty,
    false_ty: Ty,
) -> (ty: Ty)
    requires
        checking(old(this), decls, body),
        n.index < body.len(),
        body.expressions@[n.index as int] matches Expression::If { if_true, if_false, .. }
            && old(this).results.types().contains_key(if_true.index) && old(
            this,
        ).results.types()[if_true.index] == true_ty && old(this).results.types().contains_key(
            if_false.index,
        ) && old(this).results.types()[if_false.index] == false_ty,
        old(this).has_ty(true_ty),
        old(this).has_ty(false_ty),
    ensures
        checking(final(this), decls, body),
        TypeChecker::calm_step(old(this), final(this)),
        final(this).has_ty(ty),
        final(this).unify.events() == Seq::<InferVar>::empty(),
        final(this).ops.quiescent(final(this).unify),
        !old(this).clash(true_ty.base, false_ty.base) ==> ty.base == true_ty.base && final(this).agree(true_ty.base, false_ty.base),
        old(this).clash(true_ty.base, false_ty.base) ==> ty.base == final(this).primitives.error
            && final(this).clash(true_ty.base, false_ty.base) && old(this).errors_after_clash(
            n,
            true_ty.base,
            false_ty.base,
        ).is_prefix_of(final(this).results.errors()),
        final(this).clash(true_ty.base, false_ty.base) ==> final(this).results.errors().contains(
            Error { location: n },
        ) || final(this).known(true_ty.base) == Some(final(this).primitives.error)
            || final(this).known(false_ty.base) == Some(final(this).primitives.error),
        F::collects() ==> final(this).perm_less@.contains((true_ty.perm, ty.perm, n))
            && final(this).perm_less@.contains((false_ty.perm, ty.perm, n)),
{
    let ghost start = *this;
    let ty = F::least_upper_bound(this, n, true_ty, false_ty);
    let ghost one = *this;
    proof {
        if F::collects() {
            let k = start.perm_less@.len() as int;
            assert(one.perm_less@[k] == (true_ty.perm, ty.perm, n));
            assert(one.perm_less@[k + 1] == (false_ty.perm, ty.perm, n));
        }
        lemma_extension(start.tables@, one.tables@, one.tables@);
        TypeChecker::lemma_agree_stays(&start, &one, true_ty.base, false_ty.base);
        TypeChecker::lemma_agree_stays(&start, &one, false_ty.base, true_ty.base);
        if start.clash(true_ty.base, false_ty.base) {
            assert(arms_clash(&one, body, n.index as int));
        }
        lemma_checking_stays(&start, &one, decls, body);
        if start.clash(true_ty.base, false_ty.base) {
            assert(arms_clash(&one, body, n.index as int));
            if !(start.known(true_ty.base) == Some(start.primitives.error) || start.known(
                false_ty.base,
            ) == Some(start.primitives.error)) {
                let k = start.results.errors().len() as int;
                assert(one.results.errors()[k] == Error { location: n });
            }
        }
    }
    run_ready::<F>(this, decls);
    proof {
        TypeChecker::lemma_grows(&start, &one, this);
        lemma_checking_after_ready(&one, this, decls, body);
        lemma_extension(one.tables@, this.tables@, this.tables@);
        TypeChecker::lemma_agree_stays(&one, this, true_ty.base, false_ty.base);
        TypeChecker::lemma_agree_stays(&one, this, false_ty.base, true_ty.base);
        if F::collects() {
            lemma_held_on(one.perm_less@, this.perm_less@, (true_ty.perm, ty.perm, n));
            lemma_held_on(one.perm_less@, this.perm_less@, (false_ty.perm, ty.perm, n));
        }
        let e = Error { location: n };
        if one.results.errors().contains(e) {
            let k = choose|k: int| 0 <= k < one.results.errors().len()
                && one.results.errors()[k] == e;
            assert(this.results.errors().subrange(0, one.results.errors().len() as int)[k]
                == this.results.errors()[k]);
            assert(this.results.errors()[k] == e);
        }
    }
    ty
}

/// The type of the access `n` to the field `name` of an owner of type
/// `owner_ty`. Where the skeleton of the owner is known, the field is
/// looked up at once. Where it is not known yet, the access gets a fresh
/// inference variable for its type and is suspended on the owner's
/// variable; where the scheduler takes no more operations, that is an
/// error at `n`.
pub fn field_access<F: TypeCheckFamily>(
    this: &mut TypeChecker,
    decls: &Declarations,
    body: &FnBody,
    n: Node,
    owner_ty: Ty,
    name: u32,
) -> (ty: Ty)
    requires
        checking(old(this), decls, body),
        n.index < body.len(),
        body.expressions@[n.index as int] is Field,
        old(this).has_ty(owner_ty),
    ensures
        checking(final(this), decls, body),
        TypeChecker::calm_step(old(this), final(this)),
        final(this).has_ty(ty),
        match old(this).seen_as(owner_ty.base) {
            Shallow::Unresolved(v) => {
                &&& ty.base == final(this).primitives.error <==> old(this).unify.len() >= u32::MAX
                    || old(this).tables@.bases.len() >= u32::MAX
                &&& ty.base != final(this).primitives.error ==> final(this).tables@.bases[ty.base.index as int] == BaseData::Inferred(
                    InferVar { index: old(this).unify.len() as u32 },
                )
                &&& old(this).ops.issued_count() < u64::MAX ==> final(this).results.errors() == old(this).results.errors() && exists|at: OpIndex|
                    !old(this).ops.pending().contains_key(at) && #[trigger] final(this).ops.pending().contains_key(at) && final(this).ops.pending() == old(this).ops.pending().insert(
                        at,
                        Op::FieldAccess { owner: owner_ty, name, target: ty, cause: n },
                    ) && final(this).ops.waits()[at] == set![v]
                &&& old(this).ops.issued_count() >= u64::MAX ==> final(this).ops == old(this).ops
                    && final(this).results.errors() == old(this).results.errors().push(
                    Error { location: n },
                )
            },
            seen => ty.base == field_base(old(this), decls, seen, name) && final(this).results.errors() == field_errors(old(this), decls, seen, name, n) && final(this).ops
                == old(this).ops && final(this).unify == old(this).unify,
        },
        field_settled(
            final(this),
            decls,
            Op::FieldAccess { owner: owner_ty, name, target: ty, cause: n },
        ),
{
    let ghost start = *this;
    match this.shallow(owner_ty.base) {
        Shallow::Unresolved(v) => {
            let target = F::new_infer_ty(this);
            let ghost one = *this;
            proof {
                lemma_extension(start.tables@, one.tables@, one.tables@);
                lemma_checking_stays(&start, &one, decls, body);
            }
            this.suspend_field(v, owner_ty, name, target, n);
            proof {
                TypeChecker::lemma_grows(&start, &one, this);
                let op = Op::FieldAccess { owner: owner_ty, name, target, cause: n };
                if one.ops.issued_count() < u64::MAX {
                    let at = choose|at: OpIndex|
                        !one.ops.pending().contains_key(at) && #[trigger] this.ops.pending().contains_key(
                            at,
                        ) && this.ops.pending() == one.ops.pending().insert(at, op)
                            && this.ops.waits()[at] == set![v] && this.ops.waits()
                            == one.ops.waits().insert(at, set![v]);
                    assert(this.ops.pending().contains_key(at) && this.ops.pending()[at] == op);
                    assert(linked(this)) by {
                        assert forall|x: OpIndex| #[trigger]
                            this.ops.pending().contains_key(x) implies (this.ops.pending()[x]
                            matches Op::FieldAccess { owner, .. } ==> (
                        this.tables@.bases[owner.base.index as int] matches BaseData::Inferred(w)
                            && this.ops.waits()[x] == set![w])) by {
                            if x != at {
                                assert(one.ops.pending().contains_key(x));
                            }
                        }
                    }
                    assert(settles(&one, this, decls)) by {
                        assert forall|x: OpIndex| #[trigger]
                            one.ops.pending().contains_key(x) implies this.ops.pending().contains_key(
                            x,
                        ) && this.ops.pending()[x] == one.ops.pending()[x] by {
                            assert(x != at);
                        }
                    }
                } else {
                    let k = one.results.errors().len() as int;
                    assert(this.results.errors()[k] == Error { location: n });
                    assert(looked_up(this, decls, owner_ty.base, name, target.base, n));
                }
                lemma_checking_stays(&one, this, decls, body);
            }
            target
        },
        seen => {
            let ty = field_type::<F>(this, decls, n, owner_ty, seen, name);
            proof {
                lemma_checking_stays(&start, this, decls, body);
                lemma_seen_stays(&start, this, owner_ty.base);
                let listed = field_errors(&start, decls, seen, name, n);
                if listed.len() > start.results.errors().len() {
                    assert(this.results.errors()[start.results.errors().len() as int] == Error {
                        location: n,
                    });
                } else if declared_field(start.tables@, decls, seen, name) is Some {
                    lemma_extension(start.tables@, start.tables@, this.tables@);
                    assert(this.agree(ty.base, ty.base));
                    assert(start.tables@.extended_by(this.tables@) && found_in(
                        this,
                        decls,
                        start.tables@,
                        owner_ty.base,
                        name,
                        ty.base,
                    ));
                }
                assert(looked_up(this, decls, owner_ty.base, name, ty.base, n));
            }
            ty
        },
    }
}

/// The type of the call `n` of `function` with arguments of the types
/// `found`. Every argument must be assignable to its parameter: their
/// skeletons are made one, and a clash is an error at the argument,
/// unless one of the two is the sentinel. A function without a signature
/// and a wrong number of arguments are errors at `n`.
pub fn call_type<F: TypeCheckFamily>(
    this: &mut TypeChecker,
    decls: &Declarations,
    body: &FnBody,
    n: Node,
    function: Entity,
    arguments: &Vec<Node>,
    found: &Vec<Ty>,
) -> (ty: Ty)
    requires
        checking(old(this), decls, body),
        n.index < body.len(),
        body.expressions@[n.index as int] == (Expression::Call { function, arguments: *arguments }),
        found@.len() == arguments@.len(),
        forall|k: int| 0 <= k < found@.len() ==> old(this).has_ty(#[trigger] found@[k]),
        forall|k: int| 0 <= k < arguments@.len() ==> (#[trigger] arguments@[k]).index < body.len(),
        forall|k: int|
            0 <= k < arguments@.len() ==> old(this).results.types().contains_key(
                (#[trigger] arguments@[k]).index,
            ) && old(this).results.types()[arguments@[k].index] == found@[k],
    ensures
        checking(final(this), decls, body),
        TypeChecker::calm_step(old(this), final(this)),
        final(this).has_ty(ty),
        match decls.output_of(function) {
            Some(output) => ty == output,
            None => ty.base == final(this).primitives.error,
        },
        match decls.signature_of(function) {
            Some(s) => if decls.signatures@[s].inputs@.len() == arguments@.len() {
                &&& final(this).unify.events() == Seq::<InferVar>::empty() || arguments@.len() == 0
                &&& forall|k: int|
                    0 <= k < arguments@.len() ==> final(this).agree(
                        (#[trigger] found@[k]).base,
                        decls.signatures@[s].inputs@[k].base,
                    ) || (final(this).clash(found@[k].base, decls.signatures@[s].inputs@[k].base)
                        && (final(this).results.errors().contains(Error { location: arguments@[k] })
                        || final(this).known(found@[k].base) == Some(final(this).primitives.error)
                        || final(this).known(decls.signatures@[s].inputs@[k].base) == Some(
                        final(this).primitives.error,
                    )))
            } else {
                final(this).results.errors() == old(this).results.errors().push(
                    Error { location: n },
                ) && final(this).unify == old(this).unify && final(this).ops == old(this).ops
            },
            None => final(this).results.errors() == old(this).results.errors().push(
                Error { location: n },
            ) && final(this).unify == old(this).unify && final(this).ops == old(this).ops,
        },
        F::collects() ==> (match decls.signature_of(function) {
            Some(s) => decls.signatures@[s].inputs@.len() == arguments@.len() ==> forall|k: int|
                0 <= k < arguments@.len() ==> final(this).perm_less@.contains(
                    (
                        (#[trigger] found@[k]).perm,
                        decls.signatures@[s].inputs@[k].perm,
                        arguments@[k],
                    ),
                ),
            None => true,
        }),
{
    let ghost start = *this;
    proof {
        TypeChecker::lemma_grows(this, this, this);
    }
    match decls.find_signature(function) {
        None => {
            this.report(n);
            proof {
                lemma_checking_stays(&start, this, decls, body);
            }
            F::error_type(this)
        },
        Some(s) => {
            if decls.signatures[s].inputs.len() != arguments.len() {
                this.report(n);
                proof {
                    lemma_checking_stays(&start, this, decls, body);
                }
            } else {
                let mut i: usize = 0;
                while i < arguments.len()
                    invariant
                        i <= arguments.len(),
                        s < decls.signatures@.len(),
                        decls.signatures@[s as int].inputs@.len() == arguments@.len(),
                        found@.len() == arguments@.len(),
                        checking(this, decls, body),
                        TypeChecker::calm_step(&start, this),
                        n.index < body.len(),
                        body.expressions@[n.index as int] == (Expression::Call {
                            function,
                            arguments: *arguments,
                        }),
                        decls.signature_of(function) == Some(s as int),
                        forall|k: int| 0 <= k < found@.len() ==> this.has_ty(#[trigger] found@[k]),
                        forall|k: int|
                            0 <= k < arguments@.len() ==> (#[trigger] arguments@[k]).index
                                < body.len(),
                        forall|k: int|
                            0 <= k < arguments@.len() ==> this.results.types().contains_key(
                                (#[trigger] arguments@[k]).index,
                            ) && this.results.types()[arguments@[k].index] == found@[k],
                        i > 0 ==> this.unify.events() == Seq::<InferVar>::empty(),
                        F::collects() ==> forall|k: int|
                            0 <= k < i ==> this.perm_less@.contains(
                                (
                                    (#[trigger] found@[k]).perm,
                                    decls.signatures@[s as int].inputs@[k].perm,
                                    arguments@[k],
                                ),
                            ),
                        forall|k: int|
                            0 <= k < i ==> this.agree(
                                (#[trigger] found@[k]).base,
                                decls.signatures@[s as int].inputs@[k].base,
                            ) || (this.clash(
                                found@[k].base,
                                decls.signatures@[s as int].inputs@[k].base,
                            ) && (this.results.errors().contains(Error { location: arguments@[k] })
                                || this.known(found@[k].base) == Some(this.primitives.error)
                                || this.known(decls.signatures@[s as int].inputs@[k].base) == Some(
                                this.primitives.error,
                            ))),
                    decreases arguments.len() - i,
                {
                    let ghost head = *this;
                    let input = decls.signatures[s].inputs[i];
                    proof {
                        assert(head.tables@.has_ty(decls.signatures@[s as int].inputs@[i as int]));
                    }
                    F::require_assignable(this, arguments[i], found[i], input);
                    let ghost one = *this;
                    proof {
                        lemma_extension(head.tables@, one.tables@, one.tables@);
                        TypeChecker::lemma_agree_stays(&head, &one, found@[i as int].base, input.base);
                        TypeChecker::lemma_agree_stays(&head, &one, input.base, found@[i as int].base);
                        if head.clash(found@[i as int].base, input.base) {
                            assert(argument_clash(
                                &one,
                                decls,
                                body,
                                n.index as int,
                                i as int,
                                arguments@[i as int].index as int,
                            ));
                            if !(head.known(found@[i as int].base) == Some(head.primitives.error)
                                || head.known(input.base) == Some(head.primitives.error)) {
                                let at = head.results.errors().len() as int;
                                assert(one.results.errors()[at] == Error {
                                    location: arguments@[i as int],
                                });
                            }
                        }
                        lemma_checking_stays(&head, &one, decls, body);
                    }
                    run_ready::<F>(this, decls);
                    proof {
                        TypeChecker::lemma_grows(&head, &one, this);
                        TypeChecker::lemma_grows(&start, &head, this);
                        lemma_checking_after_ready(&one, this, decls, body);
                        lemma_extension(one.tables@, this.tables@, this.tables@);
                        lemma_extension(head.tables@, this.tables@, this.tables@);
                        if F::collects() {
                            assert(one.perm_less@[head.perm_less@.len() as int] == (
                                found@[i as int].perm,
                                input.perm,
                                arguments@[i as int],
                            ));
                            assert forall|k: int| 0 <= k < i + 1 implies this.perm_less@.contains(
                                (
                                    (#[trigger] found@[k]).perm,
                                    decls.signatures@[s as int].inputs@[k].perm,
                                    arguments@[k],
                                ),
                            ) by {
                                let e = (
                                    found@[k].perm,
                                    decls.signatures@[s as int].inputs@[k].perm,
                                    arguments@[k],
                                );
                                if k < i {
                                    lemma_held_on(head.perm_less@, this.perm_less@, e);
                                } else {
                                    lemma_held_on(one.perm_less@, this.perm_less@, e);
                                }
                            }
                        }
                        assert forall|k: int| 0 <= k < i + 1 implies this.agree(
                            (#[trigger] found@[k]).base,
                            decls.signatures@[s as int].inputs@[k].base,
                        ) || (this.clash(found@[k].base, decls.signatures@[s as int].inputs@[k].base)
                            && (this.results.errors().contains(Error { location: arguments@[k] })
                            || this.known(found@[k].base) == Some(this.primitives.error)
                            || this.known(decls.signatures@[s as int].inputs@[k].base) == Some(
                            this.primitives.error,
                        ))) by {
                            let a = found@[k].base;
                            let b = decls.signatures@[s as int].inputs@[k].base;
                            let e = Error { location: arguments@[k] };
                            assert(head.tables@.has_ty(decls.signatures@[s as int].inputs@[k]));
                            if k < i {
                                TypeChecker::lemma_agree_stays(&head, this, a, b);
                                TypeChecker::lemma_agree_stays(&head, this, b, a);
                                if head.results.errors().contains(e) {
                                    let at = choose|at: int|
                                        0 <= at < head.results.errors().len()
                                            && head.results.errors()[at] == e;
                                    assert(this.results.errors().subrange(
                                        0,
                                        head.results.errors().len() as int,
                                    )[at] == this.results.errors()[at]);
                                    assert(this.results.errors()[at] == e);
                                }
                            } else {
                                TypeChecker::lemma_agree_stays(&one, this, a, b);
                                TypeChecker::lemma_agree_stays(&one, this, b, a);
                                if one.results.errors().contains(e) {
                                    let at = choose|at: int|
                                        0 <= at < one.results.errors().len()
                                            && one.results.errors()[at] == e;
                                    assert(this.results.errors().subrange(
                                        0,
                                        one.results.errors().len() as int,
                                    )[at] == this.results.errors()[at]);
                                    assert(this.results.errors()[at] == e);
                                }
                            }
                        }
                    }
                    i = i + 1;
                }
            }
            decls.signatures[s].output
        },
    }
}

/// Gives the expression `n` and everything it is built from a type, and
/// returns the type of `n`.
///
/// The parts of `n` are checked first, in the order in which they are
/// written; then `n` gets the type that its kind calls for, which is
/// recorded. A node that has a type already keeps it.
#[verifier::rlimit(60)]
pub fn check_expression<F: TypeCheckFamily>(
    this: &mut TypeChecker,
    decls: &Declarations,
    body: &FnBody,
    n: Node,
) -> (ty: Ty)
    requires
        checking(old(this), decls, body),
        n.index < body.len(),
    ensures
        checking(final(this), decls, body),
        TypeChecker::grows(old(this), final(this)),
        final(this).results.types().contains_key(n.index),
        ty == final(this).results.types()[n.index],
        forall|k: u32| #[trigger]
            final(this).results.types().contains_key(k) ==> old(this).results.types().contains_key(
                k,
            ) || k <= n.index,
        F::collects() && edges_noted(old(this), decls, body) ==> edges_noted(final(this), decls, body),
    decreases n.index,
{
    let ghost start = *this;
    proof {
        TypeChecker::lemma_grows(this, this, this);
    }
    match this.results.get_ty(n) {
        Some(ty) => {
            return ty;
        },
        None => {},
    }
    let ty: Ty = match &body.expressions[n.index as usize] {
        Expression::Literal { kind } => match kind {
            LiteralKind::Bool => F::boolean_type(this),
            LiteralKind::Int => F::int_type(this),
            LiteralKind::Uint => F::uint_type(this),
        },
        Expression::Unit => F::unit_type(this),
        Expression::Error => F::error_type(this),
        Expression::Place { perm, variable } => {
            proof {
                assert(crate::hir::named_variable(body.expressions@[n.index as int]) == Some(
                    *variable,
                ));
            }
            let ty = place_type::<F>(this, decls, body, n, *perm, *variable);
            proof {
                match start.variables@[*variable as int] {
                    Some(place) => {},
                    None => {
                        let k = start.results.errors().len() as int;
                        assert(this.results.errors()[k] == Error { location: n });
                        assert(this.results.errors().contains(Error { location: n }));
                    },
                }
                assert(rule_for(this, decls, body, n.index as int, ty));
                if F::collects() {
                    assert(node_edges(this, decls, body, n.index as int, ty));
                }
                if F::collects() && edges_noted(&start, decls, body) {
                    lemma_edges_stay(&start, this, decls, body);
                }
            }
            ty
        },
        Expression::Let { variable, initializer, body: last } => {
            proof {
                assert(crate::hir::named_variable(body.expressions@[n.index as int]) == Some(
                    *variable,
                ));
            }
            let bound = match initializer {
                Some(init) => {
                    proof {
                        assert(children(body.expressions@[n.index as int])[0] == *init);
                        assert(children(body.expressions@[n.index as int])[1] == *last);
                    }
                    check_expression::<F>(this, decls, body, *init)
                },
                None => {
                    proof {
                        assert(children(body.expressions@[n.index as int])[0] == *last);
                    }
                    let fresh = F::new_infer_ty(this);
                    proof {
                        lemma_checking_stays(&start, this, decls, body);
                        if F::collects() && edges_noted(&start, decls, body) {
                            lemma_edges_stay(&start, this, decls, body);
                        }
                    }
                    fresh
                },
            };
            let ghost one = *this;
            this.bind_variable(*variable, bound, n);
            proof {
                lemma_checking_stays(&one, this, decls, body);
                TypeChecker::lemma_grows(&start, &one, this);
                if F::collects() && edges_noted(&start, decls, body) {
                    lemma_edges_stay(&one, this, decls, body);
                }
            }
            let ghost two = *this;
            let ty = check_expression::<F>(this, decls, body, *last);
            proof {
                TypeChecker::lemma_grows(&start, &two, this);
                match initializer {
                    Some(init) => {
                        assert(one.results.types().dom().contains(init.index));
                        assert(two.results.types().dom().contains(init.index));
                        assert(this.results.types().dom().contains(init.index));
                        assert(this.results.types()[init.index] == bound);
                    },
                    None => {},
                }
                let here = Error { location: n };
                match one.variables@[*variable as int] {
                    None => {
                        assert(two.variables@[*variable as int] == Some(bound));
                        assert(this.variables@[*variable as int] == Some(bound));
                    },
                    Some(_) => {
                        let k = one.results.errors().len() as int;
                        assert(two.results.errors()[k] == here);
                        assert(this.results.errors().subrange(0, two.results.errors().len() as int)[k]
                            == this.results.errors()[k]);
                        assert(this.results.errors().contains(here));
                    },
                }
                assert(this.results.types().contains_key(last.index));
            }
            ty
        },
        Expression::Assignment { variable, value } => {
            proof {
                assert(crate::hir::named_variable(body.expressions@[n.index as int]) == Some(
                    *variable,
                ));
                assert(children(body.expressions@[n.index as int])[0] == *value);
            }
            let value_ty = check_expression::<F>(this, decls, body, *value);
            let ghost one = *this;
            let ty = assign_type::<F>(this, decls, body, n, *variable, value_ty);
            proof {
                TypeChecker::lemma_grows(&start, &one, this);
                assert(this.results.types().contains_key(value.index));
                assert(this.results.types()[value.index] == value_ty);
                let here = Error { location: n };
                match one.variables@[*variable as int] {
                    Some(place) => {
                        assert(this.variables@[*variable as int] == Some(place));
                        if one.clash(value_ty.base, place.base) {
                            let after = one.errors_after_clash(n, value_ty.base, place.base);
                            if !(one.known(value_ty.base) == Some(one.primitives.error)
                                || one.known(place.base) == Some(one.primitives.error)) {
                                let k = one.results.errors().len() as int;
                                assert(after[k] == here);
                                assert(this.results.errors().subrange(0, after.len() as int)[k]
                                    == this.results.errors()[k]);
                                assert(this.results.errors()[k] == here);
                                assert(this.results.errors().contains(here));
                            } else {
                                assert(one.has_ty(place));
                                TypeChecker::lemma_agree_stays(&one, this, value_ty.base, place.base);
                                TypeChecker::lemma_agree_stays(&one, this, place.base, value_ty.base);
                            }
                        }
                    },
                    None => {
                        let k = one.results.errors().len() as int;
                        assert(this.results.errors()[k] == here);
                        assert(this.results.errors().contains(here));
                    },
                }
                assert(rule_for(this, decls, body, n.index as int, ty));
                if F::collects() {
                    assert(node_edges(this, decls, body, n.index as int, ty));
                }
                if F::collects() && edges_noted(&start, decls, body) {
                    lemma_edges_stay(&one, this, decls, body);
                }
            }
            ty
        },
        Expression::Sequence { first, second } => {
            proof {
                assert(children(body.expressions@[n.index as int])[0] == *first);
                assert(children(body.expressions@[n.index as int])[1] == *second);
            }
            let _ = check_expression::<F>(this, decls, body, *first);
            let ghost one = *this;
            let ty = check_expression::<F>(this, decls, body, *second);
            proof {
                TypeChecker::lemma_grows(&start, &one, this);
                assert(one.results.types().dom().contains(first.index));
                assert(this.results.types().dom().contains(first.index));
                assert(this.results.types().contains_key(second.index));
            }
            ty
        },
        Expression::If { condition, if_true, if_false } => {
            proof {
                assert(children(body.expressions@[n.index as int])[0] == *condition);
                assert(children(body.expressions@[n.index as int])[1] == *if_true);
                assert(children(body.expressions@[n.index as int])[2] == *if_false);
            }
            let found = check_expression::<F>(this, decls, body, *condition);
            let ghost one = *this;
            check_condition::<F>(this, decls, body, n, *condition, found);
            let ghost two = *this;
            proof {
                if F::collects() && edges_noted(&start, decls, body) {
                    lemma_edges_stay(&one, &two, decls, body);
                }
            }
            let true_ty = check_expression::<F>(this, decls, body, *if_true);
            let ghost three = *this;
            let false_ty = check_expression::<F>(this, decls, body, *if_false);
            let ghost four = *this;
            proof {
                lemma_extension(three.tables@, four.tables@, four.tables@);
                assert(three.results.types().dom().contains(if_true.index));
                assert(four.results.types().dom().contains(if_true.index));
            }
            let ty = join_arms::<F>(this, decls, body, n, true_ty, false_ty);
            proof {
                assert(one.results.types().dom().contains(condition.index));
                assert(two.results.types().dom().contains(condition.index));
                assert(three.results.types().dom().contains(condition.index));
                assert(four.results.types().dom().contains(condition.index));
                assert(this.results.types().contains_key(condition.index));
                assert(this.results.types().contains_key(if_true.index));
                assert(this.results.types().contains_key(if_false.index));
                TypeChecker::lemma_grows(&start, &one, &two);
                TypeChecker::lemma_grows(&start, &two, &three);
                TypeChecker::lemma_grows(&start, &three, &four);
                TypeChecker::lemma_grows(&start, &four, this);
                TypeChecker::lemma_grows(&two, &three, &four);
                TypeChecker::lemma_grows(&two, &four, this);
                assert(two.has_ty(found));
                TypeChecker::lemma_met_stays(
                    &two,
                    this,
                    found.base,
                    two.primitives.boolean,
                    *condition,
                );
                assert(this.results.types()[condition.index] == found);
                assert(this.results.types()[if_true.index] == true_ty);
                assert(this.results.types()[if_false.index] == false_ty);
                if F::collects() {
                    let own = two.primitives.own;
                    lemma_held_on(two.perm_less@, this.perm_less@, (found.perm, own, *condition));
                    lemma_held_on(two.perm_less@, this.perm_less@, (own, found.perm, *condition));
                    assert(node_edges(this, decls, body, n.index as int, ty));
                }
                if F::collects() && edges_noted(&start, decls, body) {
                    lemma_edges_stay(&four, this, decls, body);
                }
            }
            ty
        },
        Expression::Field { owner, name } => {
            proof {
                assert(children(body.expressions@[n.index as int])[0] == *owner);
            }
            let owner_ty = check_expression::<F>(this, decls, body, *owner);
            let ghost one = *this;
            let ty = field_access::<F>(this, decls, body, n, owner_ty, *name);
            proof {
                TypeChecker::lemma_grows(&start, &one, this);
                assert(this.results.types().contains_key(owner.index));
                assert(this.results.types()[owner.index] == owner_ty);
                assert(Node { index: n.index as int as u32 } == n);
                if F::collects() && edges_noted(&start, decls, body) {
                    lemma_edges_stay(&one, this, decls, body);
                }
            }
            ty
        },
        Expression::Call { function, arguments } => {
            let mut found: Vec<Ty> = Vec::new();
            let mut i: usize = 0;
            while i < arguments.len()
                invariant
                    i <= arguments.len(),
                    n.index < body.len(),
                    body.expressions@[n.index as int] == (Expression::Call {
                        function: *function,
                        arguments: *arguments,
                    }),
                    checking(this, decls, body),
                    TypeChecker::grows(&start, this),
                    F::collects() && edges_noted(&start, decls, body) ==> edges_noted(this, decls, body),
                    found@.len() == i,
                    forall|k: int| 0 <= k < found@.len() ==> this.has_ty(#[trigger] found@[k]),
                    forall|k: int|
                        0 <= k < i ==> this.results.types().contains_key(
                            (#[trigger] arguments@[k]).index,
                        ) && this.results.types()[arguments@[k].index] == found@[k],
                    forall|k: u32| #[trigger]
                        this.results.types().contains_key(k) ==> start.results.types().contains_key(
                            k,
                        ) || k < n.index,
                decreases arguments.len() - i,
            {
                let ghost head = *this;
                proof {
                    assert(children(body.expressions@[n.index as int])[i as int]
                        == arguments@[i as int]);
                }
                let argument_ty = check_expression::<F>(this, decls, body, arguments[i]);
                found.push(argument_ty);
                proof {
                    TypeChecker::lemma_grows(&start, &head, this);
                    lemma_extension(head.tables@, this.tables@, this.tables@);
                    assert forall|k: int| 0 <= k < i + 1 implies this.results.types().contains_key(
                        (#[trigger] arguments@[k]).index,
                    ) && this.results.types()[arguments@[k].index] == found@[k] by {
                        if k < i {
                            assert(head.results.types().dom().contains(arguments@[k].index));
                            assert(this.results.types().dom().contains(arguments@[k].index));
                        }
                    }
                }
                i = i + 1;
            }
            let ghost one = *this;
            proof {
                assert forall|k: int| 0 <= k < arguments@.len() implies (
                #[trigger] arguments@[k]).index < body.len() by {
                    assert(children(body.expressions@[n.index as int])[k] == arguments@[k]);
                }
            }
            let ty = call_type::<F>(this, decls, body, n, *function, arguments, &found);
            proof {
                TypeChecker::lemma_grows(&start, &one, this);
                assert forall|k: int| 0 <= k < arguments@.len() implies this.results.types().contains_key(
                    (#[trigger] arguments@[k]).index,
                ) && this.results.types()[arguments@[k].index] == found@[k] by {
                    assert(one.results.types().contains_key(arguments@[k].index));
                }
                let here = Error { location: n };
                if this.results.errors() == one.results.errors().push(here) {
                    assert(this.results.errors()[one.results.errors().len() as int] == here);
                }
                assert(arguments_met(this, decls, body, n.index as int));
                if F::collects() {
                    assert(node_edges(this, decls, body, n.index as int, ty));
                }
                if F::collects() && edges_noted(&start, decls, body) {
                    lemma_edges_stay(&one, this, decls, body);
                }
            }
            ty
        },
    };
    let ghost last = *this;
    proof {
        assert(!this.results.types().contains_key(n.index));
        assert forall|k: int|
            0 <= k < children(
                body.expressions@[n.index as int],
            ).len() implies this.results.types().contains_key(
            (#[trigger] children(body.expressions@[n.index as int])[k]).index,
        ) by {
            match body.expressions@[n.index as int] {
                Expression::Let { initializer, body: inner, .. } => {
                    match initializer {
                        Some(init) => {
                            assert(children(body.expressions@[n.index as int]) =~= seq![init,
                                inner]);
                        },
                        None => {
                            assert(children(body.expressions@[n.index as int]) =~= seq![inner]);
                        },
                    }
                },
                Expression::Assignment { value, .. } => {
                    assert(children(body.expressions@[n.index as int]) =~= seq![value]);
                },
                Expression::Sequence { first, second } => {
                    assert(children(body.expressions@[n.index as int]) =~= seq![first, second]);
                },
                Expression::If { condition, if_true, if_false } => {
                    assert(children(body.expressions@[n.index as int]) =~= seq![
                        condition,
                        if_true,
                        if_false,
                    ]);
                },
                Expression::Field { owner, .. } => {
                    assert(children(body.expressions@[n.index as int]) =~= seq![owner]);
                },
                Expression::Call { arguments, .. } => {
                    assert(children(body.expressions@[n.index as int]) == arguments@);
                },
                _ => {},
            }
        }
        assert(rule_for(this, decls, body, n.index as int, ty));
        assert(F::collects() ==> node_edges(this, decls, body, n.index as int, ty));
    }
    conclude(this, decls, body, n, ty);
    proof {
        TypeChecker::lemma_grows(&start, &last, this);
        if F::collects() && edges_noted(&start, decls, body) {
            lemma_node_edges_stay(&last, this, decls, body, n.index as int, ty);
            assert forall|m: int|
                0 <= m < body.len() && #[trigger] this.results.types().contains_key(m as u32)
                    && !last.results.types().contains_key(m as u32) implies node_edges(
                this,
                decls,
                body,
                m,
                this.results.types()[m as u32],
            ) by {
                assert(m == n.index);
            }
            lemma_edges_stay(&last, this, decls, body);
        }
    }
    ty
}

/// What a skeleton has turned out to be at the end of a session: what it
/// is known as, or the sentinel where it was never resolved.
pub open spec fn settled_base(this: &TypeChecker, base: Base) -> Base {
    match this.known(base) {
        Some(b) => b,
        None => this.primitives.error,
    }
}

/// The results of a session, with what is needed to read them.
pub struct Checked {
    /// The types, entities and errors.
    pub results: TypeCheckResults,
    /// The tables in which the types are interned.
    pub tables: TyInterners,
    /// The keys of the built-in types and of the sentinel.
    pub primitives: Primitives,
    /// The type of each local variable that has one.
    pub variables: Vec<Option<Ty>>,
    /// The edges between permissions that always count.
    pub perm_less: Vec<(Perm, Perm, Node)>,
    /// The edges between permissions that count under a guard.
    pub perm_less_if: Vec<(Perm, Perm, Perm, Node)>,
}

/// Whether the node `n` has the permission, and the edges between
/// permissions are among the collected ones, that its kind asks for. A
/// literal and the unit value are owned. A read of a variable has the
/// type of the variable, or the permission that is written at it, with an
/// edge from that permission to the permission of the variable, noted at
/// the read; unless an error is recorded there. For a conditional: an
/// edge from the permission of each arm to the permission of the
/// conditional, noted at the conditional, and an edge each way between
/// the permission of the condition and the owned permission, noted at the
/// condition. For an assignment: an edge from the permission of the
/// value to the permission of the variable, noted at the assignment,
/// unless an error is recorded there. For a call with as many arguments
/// as its function has parameters: an edge from the permission of each
/// argument to the permission of its parameter, noted at the argument.
pub open spec fn final_edges(out: &Checked, decls: &Declarations, body: &FnBody, n: int) -> bool {
    let types = out.results.types();
    let here = Node { index: n as u32 };
    match body.expressions@[n] {
        Expression::Literal { .. } => types[n as u32].perm == out.primitives.own,
        Expression::Unit => types[n as u32].perm == out.primitives.own,
        Expression::Place { perm, variable } => {
            ||| out.results.errors().contains(Error { location: here })
            ||| out.variables@[variable as int] matches Some(place) && (types[n as u32] == place || (types[n as u32].base
                == place.base && types[n as u32].perm.index < out.tables@.perms.len()
                && out.tables@.perms[types[n as u32].perm.index as int] == PermData::Known(perm)
                && out.perm_less@.contains((types[n as u32].perm, place.perm, here))))
        },
        Expression::If { condition, if_true, if_false } => {
            &&& out.perm_less@.contains((types[if_true.index].perm, types[n as u32].perm, here))
            &&& out.perm_less@.contains((types[if_false.index].perm, types[n as u32].perm, here))
            &&& out.perm_less@.contains(
                (types[condition.index].perm, out.primitives.own, condition),
            )
            &&& out.perm_less@.contains(
                (out.primitives.own, types[condition.index].perm, condition),
            )
        },
        Expression::Assignment { variable, value } => {
            ||| out.results.errors().contains(Error { location: here })
            ||| out.variables@[variable as int] matches Some(place) && out.perm_less@.contains(
                (types[value.index].perm, place.perm, here),
            )
        },
        Expression::Call { function, arguments } => match decls.signature_of(function) {
            Some(s) => decls.signatures@[s].inputs@.len() == arguments@.len() ==> forall|k: int|
                0 <= k < arguments@.len() ==> out.perm_less@.contains(
                    (
                        types[(#[trigger] arguments@[k]).index].perm,
                        decls.signatures@[s].inputs@[k].perm,
                        arguments@[k],
                    ),
                ),
            None => true,
        },
        _ => true,
    }
}

/// Whether the demand that the skeleton `value` be `wanted` is kept in the
/// final results: the two are one, or one of them is the sentinel, or an
/// error is recorded at `at`.
pub open spec fn kept(out: &Checked, value: Base, wanted: Base, at: Node) -> bool {
    ||| value == wanted
    ||| value == out.primitives.error
    ||| wanted == out.primitives.error
    ||| out.results.errors().contains(Error { location: at })
}

/// A demand that was settled in the session is kept in the final results.
proof fn lemma_met_is_kept(this: &TypeChecker, out: &Checked, value: Base, wanted: Base, at: Node)
    requires
        this.wf(),
        value.index < this.tables@.bases.len(),
        wanted.index < this.tables@.bases.len(),
        !(this.tables@.bases[wanted.index as int] is Inferred),
        this.met(value, wanted, at),
        out.primitives == this.primitives,
        this.results.errors().is_prefix_of(out.results.errors()),
    ensures
        kept(out, settled_base(this, value), wanted, at),
{
    let e = Error { location: at };
    if this.results.errors().contains(e) {
        let k = choose|k: int| 0 <= k < this.results.errors().len() && this.results.errors()[k]
            == e;
        assert(out.results.errors().subrange(0, this.results.errors().len() as int)[k]
            == out.results.errors()[k]);
        assert(out.results.errors()[k] == e);
    }
}

/// Whether the arguments of the call `n` are what its function takes, in
/// the final results: the function has a signature with as many
/// parameters as the call has arguments, and every argument has the
/// skeleton of its parameter, or one of the two is the sentinel, or an
/// error is recorded at the argument; or else an error is recorded at the
/// call.
pub open spec fn arguments_kept(out: &Checked, decls: &Declarations, body: &FnBody, n: int) -> bool {
    let types = out.results.types();
    let here = Error { location: Node { index: n as u32 } };
    body.expressions@[n] matches Expression::Call { function, arguments } ==> (
    match decls.signature_of(function) {
        Some(s) => if decls.signatures@[s].inputs@.len() == arguments@.len() {
            forall|k: int|
                0 <= k < arguments@.len() ==> kept(
                    out,
                    types[(#[trigger] arguments@[k]).index].base,
                    decls.signatures@[s].inputs@[k].base,
                    arguments@[k],
                )
        } else {
            out.results.errors().contains(here)
        },
        None => out.results.errors().contains(here),
    })
}

/// What the final type of the node `n` has to do with the final types of
/// the nodes that `n` is built from.
///
/// A literal, the unit value, an assignment and a reported error have the
/// type that their kind says. A read of a variable has the skeleton of
/// the variable, or the sentinel type with an error where the variable
/// had no type. The value of an assignment has the skeleton of the
/// variable, unless an error is recorded at the assignment or one of the
/// two is the sentinel. A sequence and a `let` have the skeleton of
/// their last part, and the variable of a `let` has the type of the
/// initializer, or a type of its own where there is none, unless an error
/// is recorded at the `let`. A conditional has the skeleton that both its arms
/// have, or the sentinel type where they differ; and where they differ,
/// an error is recorded at it, unless an arm has the sentinel type itself;
/// and its condition is a boolean, unless it is the sentinel or an error
/// is recorded at the condition. A call has the result type that the
/// signature of its function declares, or the sentinel type where the
/// function has no signature, and its arguments are what the function
/// takes. A field access has the skeleton that the field is declared
/// with, with the generic arguments of the owner in the place of the
/// placeholders, unless an error is recorded at it, or it or its owner is
/// the sentinel.
pub open spec fn final_rule(out: &Checked, decls: &Declarations, body: &FnBody, n: int) -> bool {
    let types = out.results.types();
    let p = out.primitives;
    let ty = types[n as u32];
    match body.expressions@[n] {
        Expression::Literal { kind } => ty.base == (match kind {
            LiteralKind::Bool => p.boolean,
            LiteralKind::Int => p.integer,
            LiteralKind::Uint => p.unsigned,
        }),
        Expression::Unit => ty.base == p.unit,
        Expression::Error => ty.base == p.error,
        Expression::Place { variable, .. } => {
            ||| ty.base == p.error && out.results.errors().contains(
                Error { location: Node { index: n as u32 } },
            )
            ||| out.variables@[variable as int] matches Some(place) && ty.base == place.base
        },
        Expression::Assignment { variable, value } => {
            let v = types[value.index].base;
            &&& ty.base == p.unit
            &&& {
                ||| out.results.errors().contains(Error { location: Node { index: n as u32 } })
                ||| out.variables@[variable as int] matches Some(place) && (v == place.base || v
                    == p.error || place.base == p.error)
            }
        },
        Expression::Sequence { second, .. } => ty == types[second.index],
        Expression::Let { variable, initializer, body: last } => {
            &&& ty == types[last.index]
            &&& {
                ||| out.results.errors().contains(Error { location: Node { index: n as u32 } })
                ||| match initializer {
                    Some(init) => out.variables@[variable as int] == Some(types[init.index]),
                    None => out.variables@[variable as int] is Some,
                }
            }
        },
        Expression::If { condition, if_true, if_false } => {
            let t = types[if_true.index].base;
            let f = types[if_false.index].base;
            &&& ty.base == (if t == f {
                t
            } else {
                p.error
            })
            &&& t != f ==> out.results.errors().contains(
                Error { location: Node { index: n as u32 } },
            ) || t == p.error || f == p.error
            &&& kept(out, types[condition.index].base, p.boolean, condition)
        },
        Expression::Call { function, arguments } => {
            &&& match decls.output_of(function) {
                Some(output) => ty == output,
                None => ty.base == p.error,
            }
            &&& arguments_kept(out, decls, body, n)
        },
        Expression::Field { owner, name } => {
            let o = types[owner.index].base;
            ||| out.results.errors().contains(Error { location: Node { index: n as u32 } })
            ||| ty.base == p.error
            ||| out.tables@.bases[o.index as int] matches BaseData::Known {
                kind: BaseKind::Error,
                ..
            }
            ||| exists|then: InternersView| #[trigger]
                then.extended_by(out.tables@) && field_kept(out, decls, then, o, name, ty.base)
        },
    }
}

/// The owner with the final skeleton `owner` is a declared type with the
/// field `name`, the final tables hold the skeleton that the tables `then`
/// give for the field, with the generic arguments of the owner in the
/// place of the placeholders, and `target` is that skeleton; unless that
/// skeleton is the sentinel or an inference variable.
pub open spec fn field_kept(
    out: &Checked,
    decls: &Declarations,
    then: InternersView,
    owner: Base,
    name: u32,
    target: Base,
) -> bool {
    &&& out.tables@.bases[owner.index as int] matches BaseData::Known {
        kind: BaseKind::Named(entity),
        generics,
    }
    &&& decls.field_of(entity, name) matches Some(field)
    &&& generics.index < then.generics.len()
    &&& {
        let found = subst_base(then, then.generics[generics.index as int], field.ty.base);
        &&& found.1.extended_by(out.tables@)
        &&& found.0.index < out.tables@.bases.len()
        &&& target == found.0 || found.0 == out.primitives.error
            || out.tables@.bases[found.0.index as int] is Inferred
    }
}

/// The node `n` is the condition of the conditional `m`, and its final
/// type is not the boolean type.
pub open spec fn condition_broken(out: &Checked, body: &FnBody, m: int, n: int) -> bool {
    let types = out.results.types();
    &&& 0 <= m < body.len()
    &&& body.expressions@[m] matches Expression::If { condition, .. }
    &&& condition.index == n
    &&& types.contains_key(n as u32)
    &&& types[n as u32].base != out.primitives.boolean
}

/// The node `n` is the argument `k` of the call `m`, whose function has a
/// signature with as many parameters as the call has arguments, and its
/// final type is not the type of the parameter.
pub open spec fn argument_broken(
    out: &Checked,
    decls: &Declarations,
    body: &FnBody,
    m: int,
    k: int,
    n: int,
) -> bool {
    let types = out.results.types();
    &&& 0 <= m < body.len()
    &&& body.expressions@[m] matches Expression::Call { function, arguments }
    &&& 0 <= k < arguments@.len()
    &&& arguments@[k].index == n
    &&& decls.signature_of(function) matches Some(s)
    &&& decls.signatures@[s].inputs@.len() == arguments@.len()
    &&& types.contains_key(n as u32)
    &&& types[n as u32].base != decls.signatures@[s].inputs@[k].base
}

/// Whether an error at the node `n` has a cause in the final results: the
/// node is a read of a variable, a field access, an assignment or a
/// `let`, which have causes of their own; or it is a call of a function
/// without a signature or with another number of parameters; or it is the
/// root and has not
/// the declared result type; or it is a conditional whose arms differ; or
/// it is a condition that is no boolean; or it is an argument that has
/// not the type of its parameter.
pub open spec fn final_cause(out: &Checked, decls: &Declarations, body: &FnBody, n: int) -> bool {
    let types = out.results.types();
    &&& 0 <= n < body.len()
    &&& {
        ||| open_kind(body.expressions@[n])
        ||| call_broken(decls, body, n)
        ||| n == body.root.index && types.contains_key(n as u32) && types[n as u32].base
            != body.output.base
        ||| (body.expressions@[n] matches Expression::If { if_true, if_false, .. }
            && types.contains_key(if_true.index) && types.contains_key(if_false.index)
            && types[if_true.index].base != types[if_false.index].base)
        ||| exists|m: int| #[trigger] condition_broken(out, body, m, n)
        ||| exists|m: int, k: int| #[trigger] argument_broken(out, decls, body, m, k, n)
    }
}

/// A cause in the session is a cause in the final results.
proof fn lemma_final_cause(
    this: &TypeChecker,
    out: &Checked,
    decls: &Declarations,
    body: &FnBody,
    n: int,
)
    requires
        this.wf(),
        decls.wf(this.tables@),
        decls.settled_in(this.tables@),
        this.has_ty(body.output),
        !(this.tables@.bases[body.output.base.index as int] is Inferred),
        caused(this, decls, body, n),
        out.primitives == this.primitives,
        out.results.types().dom() == this.results.types().dom(),
        forall|k: u32| #[trigger]
            out.results.types().contains_key(k) ==> out.results.types()[k] == (Ty {
                perm: this.results.types()[k].perm,
                base: settled_base(this, this.results.types()[k].base),
            }),
    ensures
        final_cause(out, decls, body, n),
{
    let types = this.results.types();
    let p = this.primitives;
    assert(this.known(p.boolean) == Some(p.boolean));
    assert(this.known(body.output.base) == Some(body.output.base));
    if open_kind(body.expressions@[n]) {
    } else if call_broken(decls, body, n) {
    } else if n == body.root.index && types.contains_key(n as u32) && this.clash(
        types[n as u32].base,
        body.output.base,
    ) {
        assert(out.results.types().contains_key(n as u32));
    } else if arms_clash(this, body, n) {
        match body.expressions@[n] {
            Expression::If { if_true, if_false, .. } => {
                assert(out.results.types().contains_key(if_true.index));
                assert(out.results.types().contains_key(if_false.index));
            },
            _ => {},
        }
    } else if exists|m: int| #[trigger] condition_clash(this, body, m, n) {
        let m = choose|m: int| #[trigger] condition_clash(this, body, m, n);
        assert(out.results.types().contains_key(n as u32));
        assert(condition_broken(out, body, m, n));
    } else {
        let (m, k) = choose|m: int, k: int| #[trigger] argument_clash(this, decls, body, m, k, n);
        assert(argument_clash(this, decls, body, m, k, n));
        match body.expressions@[m] {
            Expression::Call { function, arguments } => {
                let s = decls.signature_of(function)->0;
                decls.lemma_found(function, 0, function, 0);
                let input = decls.signatures@[s].inputs@[k];
                assert(!(this.tables@.bases[input.base.index as int] is Inferred));
                assert(this.known(input.base) == Some(input.base));
                assert(out.results.types().contains_key(n as u32));
            },
            _ => {},
        }
        assert(argument_broken(out, decls, body, m, k, n));
    }
}

/// Ends a session: every recorded type, and every type of a local
/// variable, whose skeleton is an inference variable is replaced by what
/// the variable was resolved to. For a
/// variable that was never resolved the sentinel stands in; that is no
/// new kind of error, and none is recorded.
pub fn finish(this: TypeChecker, body: &FnBody) -> (out: Checked)
    requires
        this.wf(),
        body.wf(),
        forall|k: u32| #[trigger] this.results.types().contains_key(k) ==> k < body.len(),
    ensures
        out.tables == this.tables,
        out.primitives == this.primitives,
        out.perm_less == this.perm_less,
        out.perm_less_if == this.perm_less_if,
        out.results.entities() == this.results.entities(),
        out.results.types().dom() == this.results.types().dom(),
        forall|k: u32| #[trigger]
            out.results.types().contains_key(k) ==> out.results.types()[k] == (Ty {
                perm: this.results.types()[k].perm,
                base: settled_base(&this, this.results.types()[k].base),
            }),
        out.results.errors() == this.results.errors(),
        out.variables@.len() == this.variables@.len(),
        forall|i: int|
            0 <= i < this.variables@.len() ==> #[trigger] out.variables@[i] == (
            match this.variables@[i] {
                Some(ty) => Some(Ty { perm: ty.perm, base: settled_base(&this, ty.base) }),
                None => None,
            }),
{
    let ghost start = this;
    let mut this = this;
    let mut variables: Vec<Option<Ty>> = Vec::new();
    let mut i: usize = 0;
    while i < this.variables.len()
        invariant
            i <= this.variables.len(),
            this == start,
            start.wf(),
            variables@.len() == i,
            forall|k: int|
                0 <= k < i ==> #[trigger] variables@[k] == (match start.variables@[k] {
                    Some(ty) => Some(Ty { perm: ty.perm, base: settled_base(&start, ty.base) }),
                    None => None,
                }),
        decreases this.variables.len() - i,
    {
        match this.variables[i] {
            Some(ty) => {
                proof {
                    assert(start.has_ty(ty));
                }
                let base = match this.shallow(ty.base) {
                    Shallow::Unresolved(_) => this.primitives.error,
                    Shallow::Known { base, .. } => base,
                    Shallow::Rigid(base) => base,
                };
                variables.push(Some(Ty { perm: ty.perm, base }));
            },
            None => {
                variables.push(None);
            },
        }
        i = i + 1;
    }
    let mut n: u32 = 0;
    while (n as usize) < body.expressions.len()
        invariant
            n <= body.expressions@.len(),
            body.expressions@.len() <= u32::MAX,
            start.wf(),
            this.vars_tracked(),
            this.values_ok(),
            this.tables == start.tables,
            this.unify == start.unify,
            this.primitives == start.primitives,
            this.perm_less == start.perm_less,
            this.perm_less_if == start.perm_less_if,
            this.results.entities() == start.results.entities(),
            this.results.types().dom() == start.results.types().dom(),
            forall|k: u32| #[trigger]
                this.results.types().contains_key(k) ==> this.results.types()[k] == (if k < n {
                    Ty {
                        perm: start.results.types()[k].perm,
                        base: settled_base(&start, start.results.types()[k].base),
                    }
                } else {
                    start.results.types()[k]
                }),
            this.results.errors() == start.results.errors(),
            this.variables == start.variables,
        decreases body.expressions@.len() - n,
    {
        let node = Node { index: n };
        match this.results.get_ty(node) {
            Some(ty) => {
                proof {
                    assert(start.results.types().dom().contains(n));
                    assert(start.has_ty(start.results.types()[n]));
                    assert(this.known(ty.base) == start.known(ty.base));
                }
                match this.shallow(ty.base) {
                    Shallow::Unresolved(_) => {
                        this.results.settle_ty(
                            node,
                            Ty { perm: ty.perm, base: this.primitives.error },
                        );
                    },
                    Shallow::Known { base, .. } => {
                        this.results.settle_ty(node, Ty { perm: ty.perm, base });
                    },
                    Shallow::Rigid(base) => {
                        this.results.settle_ty(node, Ty { perm: ty.perm, base });
                    },
                }
                proof {
                    assert(this.results.types().dom() =~= start.results.types().dom());
                }
            },
            None => {},
        }
        n = n + 1;
    }
    proof {
        assert forall|k: u32| #[trigger] this.results.types().contains_key(k) implies k < n by {
            assert(start.results.types().dom().contains(k));
            assert(start.results.types().contains_key(k));
        }
    }
    Checked {
        results: this.results,
        tables: this.tables,
        primitives: this.primitives,
        variables,
        perm_less: this.perm_less,
        perm_less_if: this.perm_less_if,
    }
}

/// What held of the recorded types holds of the final types.
proof fn lemma_final_rule(
    this: &TypeChecker,
    out: &Checked,
    decls: &Declarations,
    body: &FnBody,
    n: int,
)
    requires
        this.wf(),
        body.wf(),
        decls.wf(this.tables@),
        decls.settled_in(this.tables@),
        body.covers(this.results.types()),
        rules_hold(this, decls, body),
        0 <= n < body.len(),
        this.results.types().contains_key(n as u32),
        out.primitives == this.primitives,
        out.results.types().dom() == this.results.types().dom(),
        forall|k: u32| #[trigger]
            out.results.types().contains_key(k) ==> out.results.types()[k] == (Ty {
                perm: this.results.types()[k].perm,
                base: settled_base(this, this.results.types()[k].base),
            }),
        this.variables@.len() == body.variables,
        out.variables@.len() == this.variables@.len(),
        forall|i: int|
            0 <= i < this.variables@.len() ==> #[trigger] out.variables@[i] == (
            match this.variables@[i] {
                Some(ty) => Some(Ty { perm: ty.perm, base: settled_base(this, ty.base) }),
                None => None,
            }),
        this.results.errors().is_prefix_of(out.results.errors()),
        out.tables@ == this.tables@,
        linked(this),
        this.ops.quiescent(this.unify),
    ensures
        final_rule(out, decls, body, n),
{
    let types = this.results.types();
    let ty = types[n as u32];
    assert(out.results.types().contains_key(n as u32));
    assert(rule_for(this, decls, body, n, ty));
    assert(this.has_ty(ty));
    let p = this.primitives;
    assert(this.known(p.error) == Some(p.error));
    assert(this.known(p.boolean) == Some(p.boolean));
    assert(this.known(p.integer) == Some(p.integer));
    assert(this.known(p.unsigned) == Some(p.unsigned));
    assert(this.known(p.unit) == Some(p.unit));
    let here = Error { location: Node { index: n as u32 } };
    if this.results.errors().contains(here) {
        let k = choose|k: int| 0 <= k < this.results.errors().len() && this.results.errors()[k]
            == here;
        assert(out.results.errors().subrange(0, this.results.errors().len() as int)[k]
            == out.results.errors()[k]);
        assert(out.results.errors()[k] == here);
    }
    match body.expressions@[n] {
        Expression::Place { variable, .. } => {
            assert(crate::hir::named_variable(body.expressions@[n]) == Some(variable));
            match this.variables@[variable as int] {
                Some(place) => {
                    assert(out.variables@[variable as int] == Some(
                        Ty { perm: place.perm, base: settled_base(this, place.base) },
                    ));
                },
                None => {},
            }
        },
        Expression::Assignment { variable, value } => {
            assert(crate::hir::named_variable(body.expressions@[n]) == Some(variable));
            assert(children(body.expressions@[n])[0] == value);
            assert(types.contains_key(value.index));
            assert(out.results.types().contains_key(value.index));
            match this.variables@[variable as int] {
                Some(place) => {
                    assert(out.variables@[variable as int] == Some(
                        Ty { perm: place.perm, base: settled_base(this, place.base) },
                    ));
                },
                None => {},
            }
        },
        Expression::Sequence { first, second } => {
            assert(children(body.expressions@[n])[1] == second);
            assert(types.contains_key(second.index));
            assert(out.results.types().contains_key(second.index));
        },
        Expression::Let { variable, initializer, body: last } => {
            assert(crate::hir::named_variable(body.expressions@[n]) == Some(variable));
            match initializer {
                Some(init) => {
                    assert(children(body.expressions@[n])[0] == init);
                    assert(children(body.expressions@[n])[1] == last);
                    assert(types.contains_key(init.index));
                    assert(out.results.types().contains_key(init.index));
                },
                None => {
                    assert(children(body.expressions@[n])[0] == last);
                },
            }
            match this.variables@[variable as int] {
                Some(place) => {
                    assert(out.variables@[variable as int] == Some(
                        Ty { perm: place.perm, base: settled_base(this, place.base) },
                    ));
                },
                None => {},
            }
            assert(types.contains_key(last.index));
            assert(out.results.types().contains_key(last.index));
        },
        Expression::If { condition, if_true, if_false } => {
            assert(children(body.expressions@[n])[0] == condition);
            assert(types.contains_key(condition.index));
            assert(out.results.types().contains_key(condition.index));
            assert(this.has_ty(types[condition.index]));
            lemma_met_is_kept(this, out, types[condition.index].base, p.boolean, condition);
            assert(children(body.expressions@[n])[1] == if_true);
            assert(children(body.expressions@[n])[2] == if_false);
            assert(types.contains_key(if_true.index));
            assert(types.contains_key(if_false.index));
            assert(out.results.types().contains_key(if_true.index));
            assert(out.results.types().contains_key(if_false.index));
            let e = Error { location: Node { index: n as u32 } };
            if this.results.errors().contains(e) {
                let k = choose|k: int|
                    0 <= k < this.results.errors().len() && this.results.errors()[k] == e;
                assert(out.results.errors().subrange(0, this.results.errors().len() as int)[k]
                    == out.results.errors()[k]);
                assert(out.results.errors()[k] == e);
            }
        },
        Expression::Field { owner, name } => {
            assert(children(body.expressions@[n])[0] == owner);
            assert(types.contains_key(owner.index));
            assert(out.results.types().contains_key(owner.index));
            let owner_ty = types[owner.index];
            assert(this.has_ty(owner_ty));
            let cause = Node { index: n as u32 };
            let op = Op::FieldAccess { owner: owner_ty, name, target: ty, cause };
            let o = settled_base(this, owner_ty.base);
            let t = settled_base(this, ty.base);
            assert(out.results.types()[owner.index].base == o);
            assert(out.results.types()[n as u32].base == t);
            if carried_out(this, decls, op) {
                if this.results.errors().contains(here) {
                } else if this.known(ty.base) == Some(p.error) {
                } else if this.seen_as(owner_ty.base) matches Shallow::Known {
                    kind: BaseKind::Error,
                    ..
                } {
                } else {
                    let then = choose|then: InternersView| #[trigger]
                        then.extended_by(this.tables@) && found_in(
                            this,
                            decls,
                            then,
                            owner_ty.base,
                            name,
                            ty.base,
                        );
                    let found = declared_field(then, decls, this.seen_as(owner_ty.base), name)->Some_0;
                    assert(then.extended_by(out.tables@) && field_kept(out, decls, then, o, name, t));
                }
            } else {
                let at = choose|at: OpIndex| #[trigger]
                    this.ops.pending().contains_key(at) && this.ops.pending()[at] == op;
                assert(this.ops.pending().contains_key(at));
                let v = this.tables@.bases[owner_ty.base.index as int]->Inferred_0;
                assert(this.ops.waits()[at].contains(v));
                assert(this.unify.value_of(v) is None);
                assert(o == p.error);
            }
        },
        Expression::Call { function, arguments } => {
            assert(arguments_met(this, decls, body, n));
            match decls.signature_of(function) {
                Some(i) => {
                    decls.lemma_found(function, 0, function, 0);
                    assert(!(this.tables@.bases[decls.signatures@[i].output.base.index as int]
                        is Inferred));
                    assert(this.known(ty.base) == Some(ty.base));
                    if decls.signatures@[i].inputs@.len() == arguments@.len() {
                        assert forall|k: int| 0 <= k < arguments@.len() implies kept(
                            out,
                            out.results.types()[(#[trigger] arguments@[k]).index].base,
                            decls.signatures@[i].inputs@[k].base,
                            arguments@[k],
                        ) by {
                            assert(children(body.expressions@[n])[k] == arguments@[k]);
                            assert(types.contains_key(arguments@[k].index));
                            assert(out.results.types().contains_key(arguments@[k].index));
                            assert(this.has_ty(types[arguments@[k].index]));
                            assert(this.tables@.has_ty(decls.signatures@[i].inputs@[k]));
                            lemma_met_is_kept(
                                this,
                                out,
                                types[arguments@[k].index].base,
                                decls.signatures@[i].inputs@[k].base,
                                arguments@[k],
                            );
                        }
                    }
                },
                None => {},
            }
        },
        _ => {},
    }
}


/// The body that is one boolean literal, in a function that is declared
/// to return a boolean: the literal has the boolean type, and no error is
/// recorded.
pub proof fn lemma_boolean_literal_is_clean(out: &Checked, decls: &Declarations, body: &FnBody)
    requires
        body.expressions@.len() == 1,
        body.root.index == 0,
        body.expressions@[0] == (Expression::Literal { kind: LiteralKind::Bool }),
        out.tables@.wf(),
        out.primitives.boolean.index < out.tables@.bases.len(),
        body.output.base.index < out.tables@.bases.len(),
        out.tables@.bases[body.output.base.index as int]
            == out.tables@.bases[out.primitives.boolean.index as int],
        out.results.types().contains_key(0),
        final_rule(out, decls, body, 0),
        forall|k: int|
            0 <= k < out.results.errors().len() ==> final_cause(
                out,
                decls,
                body,
                (#[trigger] out.results.errors()[k]).location.index as int,
            ),
    ensures
        out.results.types()[0].base == out.primitives.boolean,
        out.results.errors() == Seq::<Error>::empty(),
{
    assert(body.output.base == out.primitives.boolean);
    if out.results.errors().len() > 0 {
        let n = out.results.errors()[0].location.index as int;
        assert(final_cause(out, decls, body, n));
        assert(n == 0);
        if exists|m: int| #[trigger] condition_broken(out, body, m, n) {
            let m = choose|m: int| #[trigger] condition_broken(out, body, m, n);
            assert(m == 0);
        }
        if exists|m: int, k: int| #[trigger] argument_broken(out, decls, body, m, k, n) {
            let (m, k) = choose|m: int, k: int| #[trigger] argument_broken(out, decls, body, m, k, n);
            assert(argument_broken(out, decls, body, m, k, n));
            assert(m == 0);
        }
    }
    assert(out.results.errors() =~= Seq::<Error>::empty());
}

/// Checks the body of a function in the session `this`: the root and
/// everything it is built from get a type, the type of the root is
/// required to be assignable to the declared result, and whatever that
/// makes ready is run.
pub fn check_body<F: TypeCheckFamily>(this: &mut TypeChecker, decls: &Declarations, body: &FnBody)
    requires
        checking(old(this), decls, body),
        old(this).has_ty(body.output),
    ensures
        checking(final(this), decls, body),
        TypeChecker::grows(old(this), final(this)),
        final(this).results.types().contains_key(body.root.index),
        final(this).unify.events() == Seq::<InferVar>::empty(),
        final(this).ops.quiescent(final(this).unify),
        final(this).met(
            final(this).results.types()[body.root.index].base,
            body.output.base,
            body.root,
        ),
        F::collects() && edges_noted(old(this), decls, body) ==> edges_noted(final(this), decls, body),
        F::collects() ==> final(this).perm_less@.contains(
            (final(this).results.types()[body.root.index].perm, body.output.perm, body.root),
        ),
{
    let ghost zero = *this;
    let root_ty = check_expression::<F>(this, decls, body, body.root);
    let ghost one = *this;
    proof {
        lemma_extension(zero.tables@, one.tables@, one.tables@);
    }
    F::require_assignable(this, body.root, root_ty, body.output);
    let ghost two = *this;
    proof {
        if F::collects() {
            assert(two.perm_less@[one.perm_less@.len() as int] == (
                root_ty.perm,
                body.output.perm,
                body.root,
            ));
        }
        lemma_extension(one.tables@, two.tables@, two.tables@);
        TypeChecker::lemma_agree_stays(&one, &two, root_ty.base, body.output.base);
        TypeChecker::lemma_agree_stays(&one, &two, body.output.base, root_ty.base);
        assert(one.results.types().dom().contains(body.root.index));
        if one.clash(root_ty.base, body.output.base) {
            if !(one.known(root_ty.base) == Some(one.primitives.error) || one.known(
                body.output.base,
            ) == Some(one.primitives.error)) {
                let k = one.results.errors().len() as int;
                assert(two.results.errors()[k] == Error { location: body.root });
            }
        }
        assert(two.met(root_ty.base, body.output.base, body.root));
        lemma_checking_stays(&one, &two, decls, body);
    }
    run_ready::<F>(this, decls);
    proof {
        lemma_checking_after_ready(&two, this, decls, body);
        TypeChecker::lemma_grows(&zero, &one, &two);
        TypeChecker::lemma_grows(&zero, &two, this);
        assert(one.results.types().dom().contains(body.root.index));
        TypeChecker::lemma_met_stays(&two, this, root_ty.base, body.output.base, body.root);
        assert(this.results.types()[body.root.index] == root_ty);
        if F::collects() {
            lemma_held_on(
                two.perm_less@,
                this.perm_less@,
                (root_ty.perm, body.output.perm, body.root),
            );
            if edges_noted(&zero, decls, body) {
                lemma_edges_stay(&one, &two, decls, body);
                lemma_edges_stay(&two, this, decls, body);
            }
        }
    }
}

/// Checks the body of the function `fn_entity` with the family `F`.
///
/// Every expression that the root is built from gets a type. The type
/// of the root must be assignable to the declared result. The session
/// ends when the walk is over and nothing is ready any more; an
/// operation that is still suspended then is dropped, and for a type
/// that is still unresolved then the sentinel stands in.
pub fn type_check<F: TypeCheckFamily>(
    tables: TyInterners,
    decls: &Declarations,
    fn_entity: Entity,
    body: &FnBody,
) -> (out: Checked)
    requires
        tables.wf(),
        declared_only(tables@),
        has_room(tables@),
        decls.wf(tables@),
        body.wf(),
        tables@.has_ty(body.output),
        forall|i: int|
            0 <= i < body.parameters@.len() ==> tables@.has_ty(#[trigger] body.parameters@[i]),
    ensures
        out.tables.wf(),
        tables@.extended_by(out.tables@),
        primitives_of(out.tables@, decls, out.primitives),
        out.tables@.bases[out.primitives.error.index as int] == (BaseData::Known {
            kind: BaseKind::Error,
            generics: out.primitives.no_generics,
        }),
        forall|m: int|
            body.reaches(body.root.index as int, m) ==> out.results.types().contains_key(m as u32),
        forall|k: u32| #[trigger]
            out.results.types().contains_key(k) ==> k < body.len() && out.tables@.has_ty(
                out.results.types()[k],
            ) && !(out.tables@.bases[out.results.types()[k].base.index as int] is Inferred),
        forall|n: int|
            0 <= n < body.len() && #[trigger] out.results.types().contains_key(n as u32)
                ==> final_rule(&out, decls, body, n),
        kept(&out, out.results.types()[body.root.index].base, body.output.base, body.root),
        forall|k: int|
            0 <= k < out.results.errors().len()
                ==> (#[trigger] out.results.errors()[k]).location.index
                < body.len(),
        forall|k: int|
            0 <= k < out.results.errors().len() ==> final_cause(
                &out,
                decls,
                body,
                (#[trigger] out.results.errors()[k]).location.index as int,
            ),
        facts_in_range(out.tables@.perms.len(), out.perm_less@, out.perm_less_if@),
        F::collects() ==> forall|n: int|
            0 <= n < body.len() && #[trigger] out.results.types().contains_key(n as u32)
                ==> final_edges(&out, decls, body, n),
        F::collects() ==> out.perm_less@.contains(
            (out.results.types()[body.root.index].perm, body.output.perm, body.root),
        ),
{
    let mut this = TypeChecker::new(tables, decls, fn_entity, body);
    let ghost zero = this;
    proof {
        lemma_extension(tables@, zero.tables@, zero.tables@);
        assert(decls.settled_in(zero.tables@)) by {
            assert forall|i: int| 0 <= i < decls.signatures@.len() implies !(zero.tables@.bases[(
            #[trigger] decls.signatures@[i]).output.base.index as int] is Inferred) by {
                assert(tables@.has_ty(decls.signatures@[i].output));
            }
            assert forall|i: int, k: int|
                0 <= i < decls.signatures@.len() && 0 <= k
                    < decls.signatures@[i].inputs@.len() implies !(zero.tables@.bases[(
            #[trigger] decls.signatures@[i].inputs@[k]).base.index as int] is Inferred) by {
                assert(tables@.has_ty(decls.signatures@[i].inputs@[k]));
            }
        }
        assert(checking(&this, decls, body));
    }
    check_body::<F>(&mut this, decls, body);
    let ghost last = this;
    let ghost one = this;
    proof {
        lemma_extension(tables@, zero.tables@, last.tables@);
    }
    let out = finish(this, body);
    proof {
        assert(!(last.tables@.bases[body.output.base.index as int] is Inferred)) by {
            assert(tables@.has_ty(body.output));
            assert(last.tables@.bases[body.output.base.index as int]
                == tables@.bases[body.output.base.index as int]);
        }
        assert(last.results.types().dom().contains(body.root.index));
        assert(out.results.types().contains_key(body.root.index));
        assert(last.has_ty(last.results.types()[body.root.index]));
        if F::collects() {
            assert(edges_noted(&zero, decls, body));
            assert forall|n: int|
                0 <= n < body.len() && #[trigger] out.results.types().contains_key(
                    n as u32,
                ) implies final_edges(&out, decls, body, n) by {
                assert(last.results.types().dom().contains(n as u32));
                assert(last.results.types().contains_key(n as u32));
                assert(node_edges(&last, decls, body, n, last.results.types()[n as u32]));
                match body.expressions@[n] {
                    Expression::If { condition, if_true, if_false } => {
                        assert(children(body.expressions@[n])[0] == condition);
                        assert(last.results.types().contains_key(condition.index));
                        assert(out.results.types().contains_key(condition.index));
                        assert(children(body.expressions@[n])[1] == if_true);
                        assert(children(body.expressions@[n])[2] == if_false);
                        assert(last.results.types().contains_key(if_true.index));
                        assert(last.results.types().contains_key(if_false.index));
                        assert(out.results.types().contains_key(if_true.index));
                        assert(out.results.types().contains_key(if_false.index));
                    },
                    Expression::Assignment { variable, value } => {
                        assert(crate::hir::named_variable(body.expressions@[n]) == Some(variable));
                        assert(children(body.expressions@[n])[0] == value);
                        assert(last.results.types().contains_key(value.index));
                        assert(out.results.types().contains_key(value.index));
                    },
                    Expression::Place { perm, variable } => {
                        assert(crate::hir::named_variable(body.expressions@[n]) == Some(variable));
                    },
                    Expression::Call { function, arguments } => {
                        assert forall|k: int| 0 <= k < arguments@.len() implies last.results.types().contains_key(
                            (#[trigger] arguments@[k]).index,
                        ) && out.results.types().contains_key(arguments@[k].index) by {
                            assert(children(body.expressions@[n])[k] == arguments@[k]);
                        }
                    },
                    _ => {},
                }
            }
        }
        lemma_met_is_kept(
            &last,
            &out,
            last.results.types()[body.root.index].base,
            body.output.base,
            body.root,
        );
        assert forall|k: int| 0 <= k < out.results.errors().len() implies final_cause(
            &out,
            decls,
            body,
            (#[trigger] out.results.errors()[k]).location.index as int,
        ) by {
            assert(out.results.errors()[k] == last.results.errors()[k]);
            lemma_final_cause(
                &last,
                &out,
                decls,
                body,
                last.results.errors()[k].location.index as int,
            );
        }
        assert(last.results.errors() =~= out.results.errors().subrange(
            0,
            last.results.errors().len() as int,
        ));
        assert forall|n: int|
            0 <= n < body.len() && #[trigger] out.results.types().contains_key(
                n as u32,
            ) implies final_rule(&out, decls, body, n) by {
            assert(last.results.types().dom().contains(n as u32));
            lemma_final_rule(&last, &out, decls, body, n);
        }
        assert forall|m: int|
            body.reaches(body.root.index as int, m) implies out.results.types().contains_key(
            m as u32,
        ) by {
            assert(one.results.types().dom().contains(body.root.index));
            assert(last.results.types().contains_key(body.root.index));
            body.lemma_reached_is_typed(last.results.types(), body.root.index as int, m);
            assert(last.results.types().dom().contains(m as u32));
        }
        assert forall|k: u32| #[trigger] out.results.types().contains_key(k) implies k < body.len()
            && out.tables@.has_ty(out.results.types()[k]) && !(
        out.tables@.bases[out.results.types()[k].base.index as int] is Inferred) by {
            assert(last.results.types().dom().contains(k));
            assert(last.results.types().contains_key(k));
            assert(last.has_ty(last.results.types()[k]));
            let b = last.results.types()[k].base;
            match last.tables@.bases[b.index as int] {
                BaseData::Inferred(v) => {
                    assert(last.unify.has(v));
                },
                _ => {},
            }
        }
        assert forall|k: int| 0 <= k < out.results.errors().len() implies (
        #[trigger] out.results.errors()[k]).location.index < body.len() by {
            assert(out.results.errors()[k] == last.results.errors()[k]);
        }
        assert(zero.primitives == last.primitives);
        assert(primitives_of(out.tables@, decls, out.primitives)) by {
            let p = zero.primitives;
            assert(last.tables@.bases[p.boolean.index as int]
                == zero.tables@.bases[p.boolean.index as int]);
            assert(last.tables@.bases[p.integer.index as int]
                == zero.tables@.bases[p.integer.index as int]);
            assert(last.tables@.bases[p.unsigned.index as int]
                == zero.tables@.bases[p.unsigned.index as int]);
            assert(last.tables@.bases[p.unit.index as int]
                == zero.tables@.bases[p.unit.index as int]);
        }
    }
    out
}

/// Checks the type skeletons of the body of `fn_entity`; permissions are
/// not looked at.
pub fn base_type_check(
    tables: TyInterners,
    decls: &Declarations,
    fn_entity: Entity,
    body: &FnBody,
) -> (out: Checked)
    requires
        tables.wf(),
        declared_only(tables@),
        has_room(tables@),
        decls.wf(tables@),
        body.wf(),
        tables@.has_ty(body.output),
        forall|i: int|
            0 <= i < body.parameters@.len() ==> tables@.has_ty(#[trigger] body.parameters@[i]),
    ensures
        out.tables.wf(),
        tables@.extended_by(out.tables@),
        primitives_of(out.tables@, decls, out.primitives),
        out.tables@.bases[out.primitives.error.index as int] == (BaseData::Known {
            kind: BaseKind::Error,
            generics: out.primitives.no_generics,
        }),
        forall|m: int|
            body.reaches(body.root.index as int, m) ==> out.results.types().contains_key(m as u32),
        forall|k: u32| #[trigger]
            out.results.types().contains_key(k) ==> k < body.len() && out.tables@.has_ty(
                out.results.types()[k],
            ) && !(out.tables@.bases[out.results.types()[k].base.index as int] is Inferred),
        forall|n: int|
            0 <= n < body.len() && #[trigger] out.results.types().contains_key(n as u32)
                ==> final_rule(&out, decls, body, n),
        kept(&out, out.results.types()[body.root.index].base, body.output.base, body.root),
        forall|k: int|
            0 <= k < out.results.errors().len()
                ==> (#[trigger] out.results.errors()[k]).location.index
                < body.len(),
        forall|k: int|
            0 <= k < out.results.errors().len() ==> final_cause(
                &out,
                decls,
                body,
                (#[trigger] out.results.errors()[k]).location.index as int,
            ),
{
    type_check::<BaseOnly>(tables, decls, fn_entity, body)
}

/// Checks the body of `fn_entity` with permissions threaded through, and
/// collects the edges between the permissions. Among them are the edges
/// that the literals, the reads of variables, the assignments, the
/// conditionals and the calls of the body ask for, and an edge from the
/// permission of the root to the permission of the declared result, noted
/// at the root.
pub fn full_type_check(
    tables: TyInterners,
    decls: &Declarations,
    fn_entity: Entity,
    body: &FnBody,
) -> (out: Checked)
    requires
        tables.wf(),
        declared_only(tables@),
        has_room(tables@),
        decls.wf(tables@),
        body.wf(),
        tables@.has_ty(body.output),
        forall|i: int|
            0 <= i < body.parameters@.len() ==> tables@.has_ty(#[trigger] body.parameters@[i]),
    ensures
        out.tables.wf(),
        tables@.extended_by(out.tables@),
        primitives_of(out.tables@, decls, out.primitives),
        forall|m: int|
            body.reaches(body.root.index as int, m) ==> out.results.types().contains_key(m as u32),
        forall|k: u32| #[trigger]
            out.results.types().contains_key(k) ==> k < body.len() && out.tables@.has_ty(
                out.results.types()[k],
            ) && !(out.tables@.bases[out.results.types()[k].base.index as int] is Inferred),
        forall|n: int|
            0 <= n < body.len() && #[trigger] out.results.types().contains_key(n as u32)
                ==> final_rule(&out, decls, body, n),
        kept(&out, out.results.types()[body.root.index].base, body.output.base, body.root),
        forall|k: int|
            0 <= k < out.results.errors().len()
                ==> (#[trigger] out.results.errors()[k]).location.index
                < body.len(),
        forall|k: int|
            0 <= k < out.results.errors().len() ==> final_cause(
                &out,
                decls,
                body,
                (#[trigger] out.results.errors()[k]).location.index as int,
            ),
        facts_in_range(out.tables@.perms.len(), out.perm_less@, out.perm_less_if@),
        forall|n: int|
            0 <= n < body.len() && #[trigger] out.results.types().contains_key(n as u32)
                ==> final_edges(&out, decls, body, n),
        out.perm_less@.contains(
            (out.results.types()[body.root.index].perm, body.output.perm, body.root),
        ),
{
    type_check::<FullInference>(tables, decls, fn_entity, body)
}

/// The kinds of the permission variables of a checked body, inferred from
/// the edges that the check has collected. `None` where the tables have
/// no room for the two known permissions that the inference starts from.
pub fn infer_kinds(checked: &mut Checked) -> (kinds: Option<KindMap>)
    requires
        old(checked).tables.wf(),
        facts_in_range(
            old(checked).tables@.perms.len(),
            old(checked).perm_less@,
            old(checked).perm_less_if@,
        ),
    ensures
        final(checked).tables.wf(),
        old(checked).tables@.extended_by(final(checked).tables@),
        final(checked).results == old(checked).results,
        final(checked).perm_less == old(checked).perm_less,
        final(checked).perm_less_if == old(checked).perm_less_if,
        kinds is Some <==> old(checked).tables@.perms.len() + 2 <= u32::MAX,
        kinds is None ==> final(checked).tables == old(checked).tables,
        kinds matches Some(map) ==> map.wf() && map@ == classification(
            final(checked).tables@.perms,
            final(checked).perm_less@,
            final(checked).perm_less_if@,
        ) && listed_by_key(final(checked).tables@.perms, map.entries()),
{
    proof {
        lemma_extension(checked.tables@, checked.tables@, checked.tables@);
    }
    if checked.tables.perm_count() > (u32::MAX - 2) as usize {
        return None;
    }
    let ghost before = checked.tables@;
    let kinds = inference(
        &mut checked.tables,
        checked.perm_less.as_slice(),
        checked.perm_less_if.as_slice(),
    );
    proof {
        let mid = crate::intern::interned(
            before.perms,
            PermData::Known(PermKind::Borrow),
        );
        crate::intern::lemma_interned_wf(before.perms, PermData::Known(PermKind::Borrow));
        crate::intern::lemma_interned_wf(mid, PermData::Known(PermKind::Own));
        assert(before.perms.is_prefix_of(checked.tables@.perms)) by {
            assert(before.perms =~= checked.tables@.perms.subrange(0,
                before.perms.len() as int)) by {
                assert forall|i: int| 0 <= i < before.perms.len() implies before.perms[i]
                    == checked.tables@.perms[i] by {
                    assert(before.perms[i] == mid.subrange(0, before.perms.len() as int)[i]);
                    assert(mid[i] == checked.tables@.perms.subrange(0, mid.len() as int)[i]);
                }
            }
        }
    }
    Some(kinds)
}

} // verus!
