//! The families of types that the checker can work with. A family says
//! how types are made, equated and combined; the checker itself knows
//! only the shape of the expressions.
//!
//! Two families are at hand: one that checks type skeletons alone and
//! erases every permission, and one that also threads permission
//! variables through and collects the edges between them, from which the
//! kinds of the permissions are inferred afterwards.

use crate::intern::lemma_extension;
use crate::substitute::{copy_generics, subst_base, subst_perm, substitute_base, substitute_perm};
use crate::ty::{
    BaseData, Generics, InferVar, Node, Perm, PermData, PermKind, PermVar, Ty,
};
use crate::typeck::TypeChecker;
use vstd::prelude::*;

verus! {

impl TypeChecker {
    /// The type `value` with the generic arguments of the list `generics`
    /// in the place of its placeholders.
    pub fn substitute_ty(&mut self, generics: Generics, value: Ty) -> (ty: Ty)
        requires
            old(self).wf(),
            old(self).has_ty(value),
            generics.index < old(self).tables@.generics.len(),
        ensures
            final(self).wf(),
            TypeChecker::quiet_step(old(self), final(self)),
            TypeChecker::keeps_time(old(self), final(self)),
            final(self).has_ty(ty),
            final(self).unify == old(self).unify,
            final(self).results == old(self).results,
            final(self).perm_less@ == old(self).perm_less@,
            final(self).perm_less_if@ == old(self).perm_less_if@,
            ty.perm == subst_perm(
                old(self).tables@,
                old(self).tables@.generics[generics.index as int],
                value.perm,
            ),
            ty.base == subst_base(
                old(self).tables@,
                old(self).tables@.generics[generics.index as int],
                value.base,
            ).0,
            subst_base(
                old(self).tables@,
                old(self).tables@.generics[generics.index as int],
                value.base,
            ).1.extended_by(final(self).tables@),
    {
        let ghost before = *self;
        proof {
            TypeChecker::lemma_grows(self, self, self);
            assert(self.tables@.has_generics(self.tables@.generics[generics.index as int]));
        }
        let args = copy_generics(&self.tables, generics);
        let perm = substitute_perm(&self.tables, &args, value.perm);
        let base = substitute_base(&mut self.tables, &args, value.base);
        proof {
            lemma_extension(before.tables@, self.tables@, self.tables@);
            TypeChecker::lemma_older_parts(&before, self);
            TypeChecker::lemma_same_time(&before, self);
            assert(self.vars_tracked()) by {
                assert forall|b: int| 0 <= b < self.tables@.bases.len() implies (
                #[trigger] self.tables@.bases[b] matches BaseData::Inferred(w) ==> self.unify.has(
                    w,
                )) by {
                    if b < before.tables@.bases.len() {
                        assert(self.tables@.bases[b] == before.tables@.bases[b]);
                    }
                }
            }
            assert(self.values_ok()) by {
                assert forall|w: InferVar| self.unify.has(w) implies (#[trigger] self.unify.value_of(
                    w,
                ) matches Some(b) ==> b.index < self.tables@.bases.len() && !(
                self.tables@.bases[b.index as int] is Inferred)) by {
                    match before.unify.value_of(w) {
                        Some(b) => {
                            assert(self.tables@.bases[b.index as int]
                                == before.tables@.bases[b.index as int]);
                        },
                        None => {},
                    }
                }
            }
        }
        Ty { perm, base }
    }
}

/// A family of types that the checker can work with.
pub trait TypeCheckFamily {
    /// Whether the family collects the edges between permissions.
    spec fn collects() -> bool;

    /// A new type whose skeleton is a fresh inference variable: the next
    /// variable of the unification table, unresolved. Where the table or
    /// the intern tables are full, the skeleton is the sentinel.
    fn new_infer_ty(this: &mut TypeChecker) -> (ty: Ty)
        requires
            old(this).wf(),
        ensures
            final(this).wf(),
            TypeChecker::quiet_step(old(this), final(this)),
            TypeChecker::keeps_time(old(this), final(this)),
            final(this).has_ty(ty),
            final(this).results.errors() == old(this).results.errors(),
            final(this).unify.events() == old(this).unify.events(),
            forall|w: InferVar|
                old(this).unify.has(w) ==> #[trigger] final(this).unify.value_of(w)
                    == old(this).unify.value_of(w),
            ty.base == final(this).primitives.error <==> old(this).unify.len() >= u32::MAX || old(this).tables@.bases.len() >= u32::MAX,
            ty.base != final(this).primitives.error ==> final(this).tables@.bases[ty.base.index as int]
                == BaseData::Inferred(InferVar { index: old(this).unify.len() as u32 }) && final(this).known(ty.base) is None && final(this).unify.len() == old(this).unify.len() + 1,
    ;

    /// Equates two types; where their skeletons clash, an error is
    /// produced at `cause`.
    fn equate_types(this: &mut TypeChecker, cause: Node, ty1: Ty, ty2: Ty)
        requires
            old(this).wf(),
            old(this).has_ty(ty1),
            old(this).has_ty(ty2),
        ensures
            final(this).wf(),
            TypeChecker::quiet_step(old(this), final(this)),
            TypeChecker::keeps_time(old(this), final(this)),
            old(this).clash(ty1.base, ty2.base) ==> final(this).unify == old(this).unify
                && final(this).results.errors()
                == old(this).errors_after_clash(cause, ty1.base, ty2.base),
            !old(this).clash(ty1.base, ty2.base) ==> final(this).results.errors()
                == old(this).results.errors() && final(this).agree(ty1.base, ty2.base),
            Self::collects() ==> final(this).perm_less@ == old(this).perm_less@.push(
                (ty1.perm, ty2.perm, cause),
            ).push((ty2.perm, ty1.perm, cause)),
    ;

    /// The type of booleans.
    fn boolean_type(this: &TypeChecker) -> (ty: Ty)
        requires
            this.wf(),
        ensures
            this.has_ty(ty),
            ty.base == this.primitives.boolean,
            Self::collects() ==> ty.perm == this.primitives.own,
    ;

    /// The type of signed integers.
    fn int_type(this: &TypeChecker) -> (ty: Ty)
        requires
            this.wf(),
        ensures
            this.has_ty(ty),
            ty.base == this.primitives.integer,
            Self::collects() ==> ty.perm == this.primitives.own,
    ;

    /// The type of unsigned integers.
    fn uint_type(this: &TypeChecker) -> (ty: Ty)
        requires
            this.wf(),
        ensures
            this.has_ty(ty),
            ty.base == this.primitives.unsigned,
            Self::collects() ==> ty.perm == this.primitives.own,
    ;

    /// The type of `()`.
    fn unit_type(this: &TypeChecker) -> (ty: Ty)
        requires
            this.wf(),
        ensures
            this.has_ty(ty),
            ty.base == this.primitives.unit,
            Self::collects() ==> ty.perm == this.primitives.own,
    ;

    /// The sentinel type that stands in where checking has failed.
    fn error_type(this: &TypeChecker) -> (ty: Ty)
        requires
            this.wf(),
        ensures
            this.has_ty(ty),
            ty.base == this.primitives.error,
    ;

    /// Requires that a value of type `value_ty` can be assigned to a place
    /// of type `place_ty`; `expression` is where this is required.
    fn require_assignable(this: &mut TypeChecker, expression: Node, value_ty: Ty, place_ty: Ty)
        requires
            old(this).wf(),
            old(this).has_ty(value_ty),
            old(this).has_ty(place_ty),
        ensures
            final(this).wf(),
            TypeChecker::quiet_step(old(this), final(this)),
            TypeChecker::keeps_time(old(this), final(this)),
            old(this).clash(value_ty.base, place_ty.base) ==> final(this).unify == old(this).unify
                && final(this).results.errors() == old(this).errors_after_clash(
                expression,
                value_ty.base,
                place_ty.base,
            ),
            !old(this).clash(value_ty.base, place_ty.base) ==> final(this).results.errors()
                == old(this).results.errors() && final(this).agree(value_ty.base, place_ty.base),
            Self::collects() ==> final(this).perm_less@ == old(this).perm_less@.push(
                (value_ty.perm, place_ty.perm, expression),
            ),
    ;

    /// The type of a place of type `place_ty` that is read with the
    /// permission `perm`, which the user wrote.
    fn apply_user_perm(this: &mut TypeChecker, cause: Node, perm: PermKind,
        place_ty: Ty) -> (ty: Ty)
        requires
            old(this).wf(),
            old(this).has_ty(place_ty),
        ensures
            final(this).wf(),
            TypeChecker::quiet_step(old(this), final(this)),
            TypeChecker::keeps_time(old(this), final(this)),
            final(this).has_ty(ty),
            ty.base == place_ty.base,
            final(this).unify == old(this).unify,
            final(this).results == old(this).results,
            Self::collects() ==> ty == place_ty || (ty.perm.index < final(this).tables@.perms.len()
                && final(this).tables@.perms[ty.perm.index as int] == PermData::Known(perm)
                && final(this).perm_less@.contains((ty.perm, place_ty.perm, cause))),
    ;

    /// The least upper bound of the types of the two arms of the
    /// conditional `if_expression`. Where the skeletons clash there is
    /// none: an error is produced at `if_expression` and the sentinel
    /// type comes back.
    fn least_upper_bound(this: &mut TypeChecker, if_expression: Node, true_ty: Ty,
        false_ty: Ty) -> (ty:
        Ty)
        requires
            old(this).wf(),
            old(this).has_ty(true_ty),
            old(this).has_ty(false_ty),
        ensures
            final(this).wf(),
            TypeChecker::quiet_step(old(this), final(this)),
            TypeChecker::keeps_time(old(this), final(this)),
            final(this).has_ty(ty),
            old(this).clash(true_ty.base, false_ty.base) ==> ty.base == final(this).primitives.error
                && final(this).unify == old(this).unify && final(this).results.errors()
                    == old(this).errors_after_clash(if_expression, true_ty.base, false_ty.base),
            !old(this).clash(true_ty.base, false_ty.base) ==> ty.base == true_ty.base
                && final(this).results.errors() == old(this).results.errors() && final(this).agree(
                true_ty.base,
                false_ty.base,
            ),
            Self::collects() ==> final(this).perm_less@ == old(this).perm_less@.push(
                (true_ty.perm, ty.perm, if_expression),
            ).push((false_ty.perm, ty.perm, if_expression)),
    ;

    /// The declared type `value` with the generic arguments of `generics`
    /// in the place of its placeholders.
    fn substitute(this: &mut TypeChecker, location: Node, generics: Generics, value: Ty) -> (ty: Ty)
        requires
            old(this).wf(),
            old(this).has_ty(value),
            generics.index < old(this).tables@.generics.len(),
        ensures
            final(this).wf(),
            TypeChecker::quiet_step(old(this), final(this)),
            TypeChecker::keeps_time(old(this), final(this)),
            final(this).has_ty(ty),
            final(this).unify == old(this).unify,
            final(this).results == old(this).results,
            ty.base == subst_base(
                old(this).tables@,
                old(this).tables@.generics[generics.index as int],
                value.base,
            ).0,
            subst_base(
                old(this).tables@,
                old(this).tables@.generics[generics.index as int],
                value.base,
            ).1.extended_by(final(this).tables@),
    ;

    /// The type of `value` as it is seen through an owner with the
    /// permission `owner_perm`, as when a field is read.
    fn apply_owner_perm(this: &mut TypeChecker, location: Node, owner_perm: Perm, value: Ty) -> (ty:
        Ty)
        requires
            old(this).wf(),
            old(this).has_ty(value),
            owner_perm.index < old(this).tables@.perms.len(),
        ensures
            final(this).wf(),
            TypeChecker::quiet_step(old(this), final(this)),
            TypeChecker::keeps_time(old(this), final(this)),
            final(this).has_ty(ty),
            ty.base == value.base,
            final(this).unify == old(this).unify,
            final(this).results == old(this).results,
    ;
}

/// The family that looks at type skeletons alone. Every type carries the
/// erased permission, and no permission fact is collected.
pub struct BaseOnly;

impl TypeCheckFamily for BaseOnly {
    open spec fn collects() -> bool {
        false
    }

    fn new_infer_ty(this: &mut TypeChecker) -> (ty: Ty)
        ensures
            ty.perm == final(this).primitives.erased,
            final(this).tables@.perms == old(this).tables@.perms,
            final(this).perm_less@ == old(this).perm_less@,
            final(this).perm_less_if@ == old(this).perm_less_if@,
    {
        let base = this.fresh_infer_base();
        Ty { perm: this.primitives.erased, base }
    }

    fn equate_types(this: &mut TypeChecker, cause: Node, ty1: Ty, ty2: Ty)
        ensures
            final(this).perm_less@ == old(this).perm_less@,
            final(this).perm_less_if@ == old(this).perm_less_if@,
    {
        let _ = this.equate_bases(cause, ty1.base, ty2.base);
    }

    fn boolean_type(this: &TypeChecker) -> (ty: Ty)
        ensures
            ty.perm == this.primitives.erased,
    {
        Ty { perm: this.primitives.erased, base: this.primitives.boolean }
    }

    fn int_type(this: &TypeChecker) -> (ty: Ty)
        ensures
            ty.perm == this.primitives.erased,
    {
        Ty { perm: this.primitives.erased, base: this.primitives.integer }
    }

    fn uint_type(this: &TypeChecker) -> (ty: Ty)
        ensures
            ty.perm == this.primitives.erased,
    {
        Ty { perm: this.primitives.erased, base: this.primitives.unsigned }
    }

    fn unit_type(this: &TypeChecker) -> (ty: Ty)
        ensures
            ty.perm == this.primitives.erased,
    {
        Ty { perm: this.primitives.erased, base: this.primitives.unit }
    }

    fn error_type(this: &TypeChecker) -> (ty: Ty)
        ensures
            ty.perm == this.primitives.erased,
    {
        Ty { perm: this.primitives.erased, base: this.primitives.error }
    }

    fn require_assignable(this: &mut TypeChecker, expression: Node, value_ty: Ty, place_ty: Ty)
        ensures
            final(this).perm_less@ == old(this).perm_less@,
            final(this).perm_less_if@ == old(this).perm_less_if@,
    {
        let _ = this.equate_bases(expression, value_ty.base, place_ty.base);
    }

    fn apply_user_perm(this: &mut TypeChecker, cause: Node, perm: PermKind,
        place_ty: Ty) -> (ty: Ty)
        ensures
            ty == place_ty,
            *final(this) == *old(this),
    {
        proof {
            TypeChecker::lemma_grows(this, this, this);
            TypeChecker::lemma_same_time(this, this);
        }
        place_ty
    }

    fn least_upper_bound(this: &mut TypeChecker, if_expression: Node, true_ty: Ty,
        false_ty: Ty) -> (ty:
        Ty)
        ensures
            final(this).perm_less@ == old(this).perm_less@,
            final(this).perm_less_if@ == old(this).perm_less_if@,
    {
        if this.equate_bases(if_expression, true_ty.base, false_ty.base) {
            true_ty
        } else {
            Ty { perm: this.primitives.erased, base: this.primitives.error }
        }
    }

    fn substitute(this: &mut TypeChecker, location: Node, generics: Generics, value: Ty) -> (ty: Ty)
        ensures
            final(this).perm_less@ == old(this).perm_less@,
            final(this).perm_less_if@ == old(this).perm_less_if@,
    {
        this.substitute_ty(generics, value)
    }

    fn apply_owner_perm(this: &mut TypeChecker, location: Node, owner_perm: Perm, value: Ty) -> (ty:
        Ty)
        ensures
            ty == value,
            *final(this) == *old(this),
    {
        proof {
            TypeChecker::lemma_grows(this, this, this);
            TypeChecker::lemma_same_time(this, this);
        }
        value
    }
}

/// The family that threads permissions through. Every new type gets a
/// fresh permission variable, and every place where one permission
/// limits another leaves an edge behind.
pub struct FullInference;

impl TypeCheckFamily for FullInference {
    open spec fn collects() -> bool {
        true
    }

    /// The permission is a fresh permission variable; where no further
    /// one can be handed out, it is the erased permission.
    fn new_infer_ty(this: &mut TypeChecker) -> (ty: Ty)
        ensures
            old(this).perm_vars_spent() ==> ty.perm == old(this).primitives.erased && final(this).tables@.perms == old(this).tables@.perms && final(this).next_perm_var == old(this).next_perm_var,
            !old(this).perm_vars_spent() ==> ty.perm.index == old(this).tables@.perms.len()
                && final(this).tables@.perms == old(this).tables@.perms.push(
                PermData::Inferred(PermVar { index: old(this).next_perm_var }),
            ) && final(this).next_perm_var == old(this).next_perm_var + 1,
            final(this).perm_less@ == old(this).perm_less@,
            final(this).perm_less_if@ == old(this).perm_less_if@,
    {
        let ghost start = *this;
        let perm = this.fresh_perm_var();
        let ghost mid = *this;
        let base = this.fresh_infer_base();
        proof {
            TypeChecker::lemma_grows(&start, &mid, this);
            TypeChecker::lemma_keeps_time(&start, &mid, this);
            lemma_extension(start.tables@, mid.tables@, this.tables@);
            lemma_extension(mid.tables@, this.tables@, this.tables@);
        }
        Ty { perm, base }
    }

    /// Equal types limit each other: an edge goes each way.
    fn equate_types(this: &mut TypeChecker, cause: Node, ty1: Ty, ty2: Ty)
        ensures
            final(this).perm_less@ == old(this).perm_less@.push((ty1.perm, ty2.perm, cause)).push(
                (ty2.perm, ty1.perm, cause),
            ),
            final(this).perm_less_if@ == old(this).perm_less_if@,
    {
        let ghost start = *this;
        let _ = this.equate_bases(cause, ty1.base, ty2.base);
        let ghost one = *this;
        this.push_less(ty1.perm, ty2.perm, cause);
        let ghost two = *this;
        this.push_less(ty2.perm, ty1.perm, cause);
        proof {
            TypeChecker::lemma_grows(&start, &one, &two);
            TypeChecker::lemma_grows(&start, &two, this);
            TypeChecker::lemma_keeps_time(&start, &one, &two);
            TypeChecker::lemma_keeps_time(&start, &two, this);
        }
    }

    fn boolean_type(this: &TypeChecker) -> (ty: Ty)
        ensures
            ty.perm == this.primitives.own,
    {
        Ty { perm: this.primitives.own, base: this.primitives.boolean }
    }

    fn int_type(this: &TypeChecker) -> (ty: Ty)
        ensures
            ty.perm == this.primitives.own,
    {
        Ty { perm: this.primitives.own, base: this.primitives.integer }
    }

    fn uint_type(this: &TypeChecker) -> (ty: Ty)
        ensures
            ty.perm == this.primitives.own,
    {
        Ty { perm: this.primitives.own, base: this.primitives.unsigned }
    }

    fn unit_type(this: &TypeChecker) -> (ty: Ty)
        ensures
            ty.perm == this.primitives.own,
    {
        Ty { perm: this.primitives.own, base: this.primitives.unit }
    }

    fn error_type(this: &TypeChecker) -> (ty: Ty)
        ensures
            ty.perm == this.primitives.own,
    {
        Ty { perm: this.primitives.own, base: this.primitives.error }
    }

    /// What the value needs of its permission, the place must grant: an
    /// edge goes from the value to the place.
    fn require_assignable(this: &mut TypeChecker, expression: Node, value_ty: Ty, place_ty: Ty)
        ensures
            final(this).perm_less@ == old(this).perm_less@.push(
                (value_ty.perm, place_ty.perm, expression),
            ),
            final(this).perm_less_if@ == old(this).perm_less_if@,
    {
        let ghost start = *this;
        let _ = this.equate_bases(expression, value_ty.base, place_ty.base);
        let ghost one = *this;
        this.push_less(value_ty.perm, place_ty.perm, expression);
        proof {
            TypeChecker::lemma_grows(&start, &one, this);
            TypeChecker::lemma_keeps_time(&start, &one, this);
        }
    }

    /// The place is read with the permission that the user wrote, which
    /// the place must grant: an edge goes from that permission to the
    /// permission of the place. A permission that has no key in the tables
    /// cannot stand in a type: the type of the place comes back as it is,
    /// and no edge is recorded.
    fn apply_user_perm(this: &mut TypeChecker, cause: Node, perm: PermKind,
        place_ty: Ty) -> (ty: Ty)
        ensures
            final(this).tables@ == old(this).tables@,
            final(this).perm_less_if@ == old(this).perm_less_if@,
            old(this).tables@.perms.contains(PermData::Known(perm)) ==> ty.base == place_ty.base
                && ty.perm.index < old(this).tables@.perms.len() && old(this).tables@.perms[ty.perm.index as int] == PermData::Known(perm) && final(this).perm_less@ == old(this).perm_less@.push((ty.perm, place_ty.perm, cause)),
            !old(this).tables@.perms.contains(PermData::Known(perm)) ==> ty == place_ty && final(this).perm_less@ == old(this).perm_less@,
    {
        proof {
            TypeChecker::lemma_grows(this, this, this);
            TypeChecker::lemma_same_time(this, this);
        }
        match this.tables.find_perm(PermData::Known(perm)) {
            Some(user) => {
                let ghost before = this.perm_less@;
                this.push_less(user, place_ty.perm, cause);
                proof {
                    assert(this.perm_less@[before.len() as int] == (user, place_ty.perm, cause));
                }
                Ty { perm: user, base: place_ty.base }
            },
            None => place_ty,
        }
    }

    /// The result gets a fresh permission variable, which both arms
    /// limit: an edge goes from each arm to the result. Where no further
    /// variable can be handed out, the erased permission stands in.
    fn least_upper_bound(this: &mut TypeChecker, if_expression: Node, true_ty: Ty,
        false_ty: Ty) -> (ty:
        Ty)
        ensures
            final(this).perm_less_if@ == old(this).perm_less_if@,
            final(this).perm_less@ == old(this).perm_less@.push(
                (true_ty.perm, ty.perm, if_expression),
            ).push((false_ty.perm, ty.perm, if_expression)),
            old(this).perm_vars_spent() ==> ty.perm == old(this).primitives.erased && final(this).tables@ == old(this).tables@,
            !old(this).perm_vars_spent() ==> ty.perm.index == old(this).tables@.perms.len()
                && final(this).tables@.perms == old(this).tables@.perms.push(
                PermData::Inferred(PermVar { index: old(this).next_perm_var }),
            ) && final(this).next_perm_var == old(this).next_perm_var + 1,
    {
        let ghost start = *this;
        let ok = this.equate_bases(if_expression, true_ty.base, false_ty.base);
        let ghost one = *this;
        let perm = this.fresh_perm_var();
        let ghost two = *this;
        proof {
            lemma_extension(start.tables@, two.tables@, two.tables@);
        }
        this.push_less(true_ty.perm, perm, if_expression);
        let ghost three = *this;
        this.push_less(false_ty.perm, perm, if_expression);
        proof {
            TypeChecker::lemma_grows(&start, &one, &two);
            TypeChecker::lemma_grows(&start, &two, &three);
            TypeChecker::lemma_grows(&start, &three, this);
            TypeChecker::lemma_keeps_time(&start, &one, &two);
            TypeChecker::lemma_keeps_time(&start, &two, &three);
            TypeChecker::lemma_keeps_time(&start, &three, this);
            assert(this.agree(true_ty.base, false_ty.base) == one.agree(
                true_ty.base,
                false_ty.base,
            )) by {
                lemma_extension(one.tables@, this.tables@, this.tables@);
            }
        }
        if ok {
            Ty { perm, base: true_ty.base }
        } else {
            Ty { perm, base: this.primitives.error }
        }
    }

    fn substitute(this: &mut TypeChecker, location: Node, generics: Generics, value: Ty) -> (ty: Ty)
        ensures
            final(this).perm_less@ == old(this).perm_less@,
            final(this).perm_less_if@ == old(this).perm_less_if@,
    {
        this.substitute_ty(generics, value)
    }

    /// The result gets a fresh permission variable. What the result needs
    /// of its permission, the field and the owner must both grant; and
    /// once the owner is at least borrowed, what the field has, the
    /// result has.
    fn apply_owner_perm(this: &mut TypeChecker, location: Node, owner_perm: Perm, value: Ty) -> (ty:
        Ty)
        ensures
            final(this).perm_less@ == old(this).perm_less@.push(
                (ty.perm, value.perm, location),
            ).push((ty.perm, owner_perm, location)),
            final(this).perm_less_if@ == old(this).perm_less_if@.push(
                (owner_perm, value.perm, ty.perm, location),
            ),
    {
        let ghost start = *this;
        let perm = this.fresh_perm_var();
        let ghost one = *this;
        proof {
            lemma_extension(start.tables@, one.tables@, one.tables@);
        }
        this.push_less(perm, value.perm, location);
        let ghost two = *this;
        this.push_less(perm, owner_perm, location);
        let ghost three = *this;
        this.push_less_if(owner_perm, value.perm, perm, location);
        proof {
            TypeChecker::lemma_grows(&start, &one, &two);
            TypeChecker::lemma_grows(&start, &two, &three);
            TypeChecker::lemma_grows(&start, &three, this);
            TypeChecker::lemma_keeps_time(&start, &one, &two);
            TypeChecker::lemma_keeps_time(&start, &two, &three);
            TypeChecker::lemma_keeps_time(&start, &three, this);
        }
        Ty { perm, base: value.base }
    }
}

} // verus!
