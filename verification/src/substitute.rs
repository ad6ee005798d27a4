//! Substitution of generic arguments for the placeholders of a declared
//! type, as it is needed when the type of a field or the signature of a
//! function is looked at through a concrete owner.
//!
//! A placeholder is replaced by the argument that its bound variable
//! counts to. A known type skeleton is rebuilt from the images of its own
//! generic arguments and interned again. Everything else stays.

use crate::intern::{generic_ty, interned, lemma_extension, InternersView, TyInterners};
use crate::map::Mapper;
use crate::ty::{Base, BaseData, Generic, Generics, Perm, PermData, Ty};
use vstd::prelude::*;

verus! {

/// The image of a permission: the permission of the argument, where `perm`
/// is a placeholder that `args` has an argument for; else `perm` itself.
pub open spec fn subst_perm(tables: InternersView, args: Seq<Generic>, perm: Perm) -> Perm {
    if perm.index < tables.perms.len() {
        match tables.perms[perm.index as int] {
            PermData::Placeholder(p) => if p.bound_var.index < args.len() {
                generic_ty(args[p.bound_var.index as int]).perm
            } else {
                perm
            },
            _ => perm,
        }
    } else {
        perm
    }
}

/// The image of a type skeleton, and the tables after it was interned.
///
/// A key that the tables do not hold stays as it is. Where the tables have
/// no room for the rebuilt skeleton, the skeleton stays as it is.
pub open spec fn subst_base(tables: InternersView, args: Seq<Generic>, base: Base) -> (
    Base,
    InternersView,
)
    decreases base.index + 1, 0nat,
{
    if !(tables.wf() && base.index < tables.bases.len()) {
        (base, tables)
    } else {
        match tables.bases[base.index as int] {
            BaseData::Placeholder(p) => if p.bound_var.index < args.len() {
                (generic_ty(args[p.bound_var.index as int]).base, tables)
            } else {
                (base, tables)
            },
            BaseData::Inferred(_) => (base, tables),
            BaseData::Known { kind, generics } => {
                let list = tables.generics[generics.index as int];
                let (images, t1) = subst_list(tables, args, list, list.len(), base.index);
                if t1.generics.len() < u32::MAX && t1.bases.len() < u32::MAX {
                    let t2 = InternersView {
                        perms: t1.perms,
                        bases: t1.bases,
                        generics: interned(t1.generics, images),
                    };
                    let key = Generics { index: t2.generics.index_of(images) as u32 };
                    let data = BaseData::Known { kind, generics: key };
                    let t3 = InternersView {
                        perms: t2.perms,
                        bases: interned(t2.bases, data),
                        generics: t2.generics,
                    };
                    (Base { index: t3.bases.index_of(data) as u32 }, t3)
                } else {
                    (base, t1)
                }
            },
        }
    }
}

/// The images of the first `n` arguments of `list`, and the tables after
/// they were interned. An argument whose skeleton is not older than
/// `bound` keeps its skeleton.
pub open spec fn subst_list(
    tables: InternersView,
    args: Seq<Generic>,
    list: Seq<Generic>,
    n: nat,
    bound: u32,
) -> (Seq<Generic>, InternersView)
    decreases bound, n + 1,
{
    if n == 0 || n > list.len() {
        (Seq::empty(), tables)
    } else {
        let (before, t0) = subst_list(tables, args, list, (n - 1) as nat, bound);
        let ty = generic_ty(list[n - 1]);
        let perm = subst_perm(t0, args, ty.perm);
        if ty.base.index < bound {
            let (base, t1) = subst_base(t0, args, ty.base);
            (before.push(Generic::Ty(Ty { perm, base })), t1)
        } else {
            (before.push(Generic::Ty(Ty { perm, base: ty.base })), t0)
        }
    }
}

/// Every skeleton that `after` has and `before` had not is a known one.
pub open spec fn adds_known_only(before: InternersView, after: InternersView) -> bool {
    forall|b: int| before.bases.len() <= b < after.bases.len()
        ==> #[trigger] after.bases[b] is Known
}

/// The image of a permission under the arguments `args`.
pub fn substitute_perm(tables: &TyInterners, args: &Vec<Generic>, perm: Perm) -> (out: Perm)
    ensures
        out == subst_perm(tables@, args@, perm),
        tables@.has_generics(args@) && perm.index < tables@.perms.len() ==> out.index
            < tables@.perms.len(),
{
    if (perm.index as usize) < tables.perm_count() {
        match tables.untern_perm(perm) {
            PermData::Placeholder(p) => {
                if (p.bound_var.index as usize) < args.len() {
                    proof {
                        if tables@.has_generics(args@) {
                            assert(tables@.has_ty(generic_ty(args@[p.bound_var.index as int])));
                        }
                    }
                    match args[p.bound_var.index as usize] {
                        Generic::Ty(ty) => ty.perm,
                    }
                } else {
                    perm
                }
            },
            _ => perm,
        }
    } else {
        perm
    }
}

/// A copy of the list that `key` stands for.
pub fn copy_generics(tables: &TyInterners, key: Generics) -> (copy: Vec<Generic>)
    requires
        key.index < tables@.generics.len(),
    ensures
        copy@ == tables@.generics[key.index as int],
{
    let data = tables.untern_generics(key);
    let mut copy: Vec<Generic> = Vec::new();
    let mut i: usize = 0;
    while i < data.len()
        invariant
            i <= data.len(),
            copy@ == data@.take(i as int),
        decreases data.len() - i,
    {
        copy.push(data[i]);
        proof {
            assert(data@.take(i as int + 1) =~= data@.take(i as int).push(data@[i as int]));
        }
        i = i + 1;
    }
    proof {
        assert(data@.take(data@.len() as int) =~= data@);
    }
    copy
}

/// The image of a type skeleton under the arguments `args`; what has to
/// be interned for it is interned in `tables`.
pub fn substitute_base(tables: &mut TyInterners, args: &Vec<Generic>, base: Base) -> (out: Base)
    requires
        old(tables).wf(),
        old(tables)@.has_generics(args@),
    ensures
        final(tables).wf(),
        old(tables)@.extended_by(final(tables)@),
        final(tables)@.has_generics(args@),
        final(tables)@.perms == old(tables)@.perms,
        adds_known_only(old(tables)@, final(tables)@),
        (out, final(tables)@) == subst_base(old(tables)@, args@, base),
        base.index < old(tables)@.bases.len() ==> out.index < final(tables)@.bases.len(),
    decreases base.index + 1, 0nat,
{
    proof {
        lemma_extension(tables@, tables@, tables@);
    }
    if base.index as usize >= tables.base_count() {
        return base;
    }
    match tables.untern_base(base) {
        BaseData::Placeholder(p) => {
            if (p.bound_var.index as usize) < args.len() {
                proof {
                    assert(tables@.has_ty(generic_ty(args@[p.bound_var.index as int])));
                }
                match args[p.bound_var.index as usize] {
                    Generic::Ty(ty) => ty.base,
                }
            } else {
                base
            }
        },
        BaseData::Inferred(_) => base,
        BaseData::Known { kind, generics } => {
            let ghost t0 = tables@;
            proof {
                assert(t0.has_base_data(t0.bases[base.index as int]));
                assert(t0.has_generics(t0.generics[generics.index as int]));
            }
            let list = copy_generics(tables, generics);
            let images = substitute_list(tables, args, &list, base.index);
            let ghost t1 = tables@;
            if tables.generics_count() < u32::MAX as usize
                && tables.base_count() < u32::MAX as usize {
                let key = tables.intern_generics(images);
                let ghost t2 = tables@;
                let out = tables.intern_base(BaseData::Known { kind, generics: key });
                proof {
                    let t3 = tables@;
                    lemma_extension(t0, t1, t2);
                    lemma_extension(t0, t2, t3);
                    lemma_extension(t1, t2, t3);
                    assert(adds_known_only(t0, t3)) by {
                        assert forall|b: int| t0.bases.len() <= b < t3.bases.len() implies #[trigger] t3.bases[b] is Known by {
                            if b < t1.bases.len() {
                                assert(t3.bases[b] == t1.bases[b]);
                            }
                        }
                    }
                    assert(t2 == InternersView {
                        perms: t1.perms,
                        bases: t1.bases,
                        generics: interned(t1.generics, images@),
                    });
                    assert(t3 == InternersView {
                        perms: t2.perms,
                        bases: interned(
                            t2.bases,
                            BaseData::Known { kind, generics: key },
                        ),
                        generics: t2.generics,
                    });
                }
                out
            } else {
                base
            }
        },
    }
}

/// The images of the arguments of `list` under the arguments `args`.
fn substitute_list(tables: &mut TyInterners, args: &Vec<Generic>, list: &Vec<Generic>,
    bound: u32) -> (images:
    Vec<Generic>)
    requires
        old(tables).wf(),
        old(tables)@.has_generics(args@),
        old(tables)@.has_generics(list@),
    ensures
        final(tables).wf(),
        old(tables)@.extended_by(final(tables)@),
        final(tables)@.has_generics(args@),
        final(tables)@.has_generics(images@),
        final(tables)@.perms == old(tables)@.perms,
        adds_known_only(old(tables)@, final(tables)@),
        (images@, final(tables)@) == subst_list(old(tables)@, args@, list@, list@.len(), bound),
    decreases bound, 1nat,
{
    let mut images: Vec<Generic> = Vec::new();
    let mut i: usize = 0;
    proof {
        lemma_extension(tables@, tables@, tables@);
    }
    while i < list.len()
        invariant
            i <= list.len(),
            tables.wf(),
            old(tables)@.extended_by(tables@),
            tables@.has_generics(args@),
            tables@.has_generics(list@),
            tables@.has_generics(images@),
            tables@.perms == old(tables)@.perms,
            adds_known_only(old(tables)@, tables@),
            (images@, tables@) == subst_list(old(tables)@, args@, list@, i as nat, bound),
        decreases list.len() - i,
    {
        let ghost before = tables@;
        let ghost images_before = images@;
        proof {
            assert(before.has_ty(generic_ty(list@[i as int])));
        }
        match list[i] {
            Generic::Ty(ty) => {
                let perm = substitute_perm(tables, args, ty.perm);
                let base = if ty.base.index < bound {
                    substitute_base(tables, args, ty.base)
                } else {
                    ty.base
                };
                images.push(Generic::Ty(Ty { perm, base }));
                proof {
                    lemma_extension(old(tables)@, before, tables@);
                    lemma_extension(before, tables@, tables@);
                    assert(adds_known_only(old(tables)@, tables@)) by {
                        assert forall|b: int|
                            old(tables)@.bases.len() <= b < tables@.bases.len() implies #[trigger] tables@.bases[b] is Known by {
                            if b < before.bases.len() {
                                assert(tables@.bases[b] == before.bases[b]);
                            }
                        }
                    }
                    assert(tables@.has_generics(images@)) by {
                        assert forall|k: int| 0 <= k < images@.len() implies tables@.has_ty(
                            generic_ty(#[trigger] images@[k]),
                        ) by {
                            if k < images_before.len() {
                                assert(images@[k] == images_before[k]);
                                assert(before.has_ty(generic_ty(images_before[k])));
                            }
                        }
                    }
                }
            },
        }
        i = i + 1;
    }
    images
}

/// What a substitution depends on: the tables and the arguments.
pub struct SubstitutionState {
    pub tables: InternersView,
    pub args: Seq<Generic>,
}

/// A mapper that substitutes `generics` for the placeholders.
pub struct Substitution {
    tables: TyInterners,
    generics: Vec<Generic>,
}

impl Substitution {
    /// A substitution of `generics`, working on `tables`.
    pub fn new(tables: TyInterners, generics: Vec<Generic>) -> (made: Substitution)
        requires
            tables.wf(),
            tables@.has_generics(generics@),
        ensures
            made.wf(),
            made.state() == (SubstitutionState { tables: tables@, args: generics@ }),
    {
        Substitution { tables, generics }
    }

    /// Gives the tables back.
    pub fn into_tables(self) -> (tables: TyInterners)
        requires
            self.wf(),
        ensures
            tables.wf(),
            tables@ == self.state().tables,
    {
        self.tables
    }
}

impl Mapper for Substitution {
    type State = SubstitutionState;

    closed spec fn state(&self) -> SubstitutionState {
        SubstitutionState { tables: self.tables@, args: self.generics@ }
    }

    closed spec fn wf(&self) -> bool {
        self.tables.wf() && self.tables@.has_generics(self.generics@)
    }

    open spec fn tables(s: SubstitutionState) -> InternersView {
        s.tables
    }

    open spec fn perm_image(s: SubstitutionState, perm: Perm) -> Perm {
        subst_perm(s.tables, s.args, perm)
    }

    open spec fn after_perm(s: SubstitutionState, perm: Perm) -> SubstitutionState {
        s
    }

    open spec fn base_image(s: SubstitutionState, base: Base) -> Base {
        subst_base(s.tables, s.args, base).0
    }

    open spec fn after_base(s: SubstitutionState, base: Base) -> SubstitutionState {
        SubstitutionState { tables: subst_base(s.tables, s.args, base).1, args: s.args }
    }

    open spec fn after_generics(s: SubstitutionState, list: Seq<Generic>) -> SubstitutionState {
        SubstitutionState {
            tables: InternersView {
                perms: s.tables.perms,
                bases: s.tables.bases,
                generics: interned(s.tables.generics, list),
            },
            args: s.args,
        }
    }

    fn interners(&self) -> (tables: &TyInterners) {
        &self.tables
    }

    fn intern_generics(&mut self, list: Vec<Generic>) -> (key: Generics) {
        let ghost before = self.tables@;
        let key = self.tables.intern_generics(list);
        proof {
            lemma_extension(before, self.tables@, self.tables@);
            assert(self.tables@ == InternersView {
                perms: before.perms,
                bases: before.bases,
                generics: interned(before.generics, list@),
            });
        }
        key
    }

    fn map_perm(&mut self, perm: Perm) -> (image: Perm) {
        proof {
            lemma_extension(self.tables@, self.tables@, self.tables@);
        }
        substitute_perm(&self.tables, &self.generics, perm)
    }

    fn map_base(&mut self, base: Base) -> (image: Base) {
        substitute_base(&mut self.tables, &self.generics, base)
    }
}

} // verus!
