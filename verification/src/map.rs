//! Mapping over types: a mapper says what becomes of a permission and of
//! a type skeleton, and everything that is built from those two is mapped
//! part by part, in the order in which the parts are written.
//!
//! A mapper may change as it works (it may intern new types), so each part
//! is mapped by the mapper as the parts before it have left it. What a
//! mapper does is a function of its state, which is what contracts speak
//! of. A mapper only ever extends its intern tables: a key keeps its
//! meaning.

use crate::intern::{generic_ty, interned, lemma_extension, lemma_interned_wf, InternersView, TyInterners};
use crate::ty::{Base, Generic, Generics, Perm, Ty};
use vstd::prelude::*;

verus! {

/// What decides the image of a permission and of a type skeleton.
pub trait Mapper: Sized {
    /// All that the mapper's answers depend on.
    type State;

    /// The state that the mapper is in.
    spec fn state(&self) -> Self::State;

    /// The mapper is in a state in which it can work.
    spec fn wf(&self) -> bool;

    /// The intern tables of a mapper in state `s`.
    spec fn tables(s: Self::State) -> InternersView;

    /// What `map_perm` returns for `perm`.
    spec fn perm_image(s: Self::State, perm: Perm) -> Perm;

    /// The state after `map_perm` on `perm`.
    spec fn after_perm(s: Self::State, perm: Perm) -> Self::State;

    /// What `map_base` returns for `base`.
    spec fn base_image(s: Self::State, base: Base) -> Base;

    /// The state after `map_base` on `base`.
    spec fn after_base(s: Self::State, base: Base) -> Self::State;

    /// The state after `intern_generics` on `list`.
    spec fn after_generics(s: Self::State, list: Seq<Generic>) -> Self::State;

    /// The intern tables that the mapper works on.
    fn interners(&self) -> (tables: &TyInterners)
        requires
            self.wf(),
        ensures
            tables@ == Self::tables(self.state()),
            tables.wf(),
    ;

    /// Interns a list of generic arguments in the mapper's tables: the key
    /// of the list, a new one if the list had none. The tables must have
    /// room for one more list.
    fn intern_generics(&mut self, list: Vec<Generic>) -> (key: Generics)
        requires
            old(self).wf(),
            Self::tables(old(self).state()).has_generics(list@),
            Self::tables(old(self).state()).generics.len() < u32::MAX,
        ensures
            final(self).wf(),
            final(self).state() == Self::after_generics(old(self).state(), list@),
            Self::tables(final(self).state()).generics == interned(
                Self::tables(old(self).state()).generics,
                list@,
            ),
            Self::tables(final(self).state()).perms == Self::tables(old(self).state()).perms,
            Self::tables(final(self).state()).bases == Self::tables(old(self).state()).bases,
            key.index == Self::tables(final(self).state()).generics.index_of(list@),
    ;

    /// The image of a permission of the mapper's tables, which is a
    /// permission of the tables as the mapper leaves them.
    fn map_perm(&mut self, perm: Perm) -> (image: Perm)
        requires
            old(self).wf(),
            perm.index < Self::tables(old(self).state()).perms.len(),
        ensures
            final(self).wf(),
            image == Self::perm_image(old(self).state(), perm),
            final(self).state() == Self::after_perm(old(self).state(), perm),
            Self::tables(old(self).state()).extended_by(Self::tables(final(self).state())),
            image.index < Self::tables(final(self).state()).perms.len(),
    ;

    /// The image of a type skeleton of the mapper's tables, which is a
    /// skeleton of the tables as the mapper leaves them.
    fn map_base(&mut self, base: Base) -> (image: Base)
        requires
            old(self).wf(),
            base.index < Self::tables(old(self).state()).bases.len(),
        ensures
            final(self).wf(),
            image == Self::base_image(old(self).state(), base),
            final(self).state() == Self::after_base(old(self).state(), base),
            Self::tables(old(self).state()).extended_by(Self::tables(final(self).state())),
            image.index < Self::tables(final(self).state()).bases.len(),
    ;
}

/// What can be mapped part by part.
pub trait MapWith<M: Mapper>: Sized {
    type Output;

    /// Whether every key in `self` is a key of the tables of a mapper in
    /// state `s`.
    spec fn mappable(&self, s: M::State) -> bool;

    /// Whether `out` is what a mapper in state `s` makes of `self`.
    spec fn maps_to(&self, s: M::State, out: Self::Output) -> bool;

    /// The state of the mapper after it has mapped `self`.
    spec fn after(&self, s: M::State) -> M::State;

    /// What can be mapped can still be mapped when the tables have grown.
    proof fn lemma_mappable_stays(&self, s: M::State, t: M::State)
        requires
            self.mappable(s),
            M::tables(s).extended_by(M::tables(t)),
        ensures
            self.mappable(t),
    ;

    /// Maps `self` with `mapper`.
    fn map_with(&self, mapper: &mut M) -> (out: Self::Output)
        requires
            old(mapper).wf(),
            self.mappable(old(mapper).state()),
        ensures
            final(mapper).wf(),
            self.maps_to(old(mapper).state(), out),
            final(mapper).state() == self.after(old(mapper).state()),
            M::tables(old(mapper).state()).extended_by(M::tables(final(mapper).state())),
    ;
}

impl<M: Mapper> MapWith<M> for Perm {
    type Output = Perm;

    open spec fn mappable(&self, s: M::State) -> bool {
        self.index < M::tables(s).perms.len()
    }

    open spec fn maps_to(&self, s: M::State, out: Perm) -> bool {
        out == M::perm_image(s, *self) && out.index < M::tables(M::after_perm(s, *self)).perms.len()
    }

    open spec fn after(&self, s: M::State) -> M::State {
        M::after_perm(s, *self)
    }

    proof fn lemma_mappable_stays(&self, s: M::State, t: M::State) {
    }

    fn map_with(&self, mapper: &mut M) -> (out: Perm) {
        mapper.map_perm(*self)
    }
}

impl<M: Mapper> MapWith<M> for Base {
    type Output = Base;

    open spec fn mappable(&self, s: M::State) -> bool {
        self.index < M::tables(s).bases.len()
    }

    open spec fn maps_to(&self, s: M::State, out: Base) -> bool {
        out == M::base_image(s, *self) && out.index < M::tables(M::after_base(s, *self)).bases.len()
    }

    open spec fn after(&self, s: M::State) -> M::State {
        M::after_base(s, *self)
    }

    proof fn lemma_mappable_stays(&self, s: M::State, t: M::State) {
    }

    fn map_with(&self, mapper: &mut M) -> (out: Base) {
        mapper.map_base(*self)
    }
}

/// The image of a type: first the permission is mapped, then the skeleton.
pub open spec fn ty_image<M: Mapper>(s: M::State, ty: Ty) -> Ty {
    Ty { perm: M::perm_image(s, ty.perm), base: M::base_image(M::after_perm(s, ty.perm), ty.base) }
}

/// The state of the mapper after it has mapped a type.
pub open spec fn after_ty<M: Mapper>(s: M::State, ty: Ty) -> M::State {
    M::after_base(M::after_perm(s, ty.perm), ty.base)
}

impl<M: Mapper> MapWith<M> for Ty {
    type Output = Ty;

    open spec fn mappable(&self, s: M::State) -> bool {
        M::tables(s).has_ty(*self)
    }

    open spec fn maps_to(&self, s: M::State, out: Ty) -> bool {
        out == ty_image::<M>(s, *self) && M::tables(after_ty::<M>(s, *self)).has_ty(out)
    }

    open spec fn after(&self, s: M::State) -> M::State {
        after_ty::<M>(s, *self)
    }

    proof fn lemma_mappable_stays(&self, s: M::State, t: M::State) {
    }

    fn map_with(&self, mapper: &mut M) -> (out: Ty) {
        let Ty { perm, base } = self;
        let ghost start = M::tables(mapper.state());
        let perm = perm.map_with(mapper);
        let ghost mid = M::tables(mapper.state());
        let base = base.map_with(mapper);
        proof {
            lemma_extension(start, mid, M::tables(mapper.state()));
            lemma_extension(mid, M::tables(mapper.state()), M::tables(mapper.state()));
        }
        Ty { perm, base }
    }
}

impl<M: Mapper> MapWith<M> for Generic {
    type Output = Generic;

    open spec fn mappable(&self, s: M::State) -> bool {
        M::tables(s).has_ty(generic_ty(*self))
    }

    open spec fn maps_to(&self, s: M::State, out: Generic) -> bool {
        out == Generic::Ty(ty_image::<M>(s, generic_ty(*self))) && M::tables(
            after_ty::<M>(s, generic_ty(*self)),
        ).has_ty(generic_ty(out))
    }

    open spec fn after(&self, s: M::State) -> M::State {
        after_ty::<M>(s, generic_ty(*self))
    }

    proof fn lemma_mappable_stays(&self, s: M::State, t: M::State) {
    }

    fn map_with(&self, mapper: &mut M) -> (out: Generic) {
        match self {
            Generic::Ty(ty) => Generic::Ty(ty.map_with(mapper)),
        }
    }
}

impl<M: Mapper, T: MapWith<M>> MapWith<M> for Option<T> {
    type Output = Option<T::Output>;

    open spec fn mappable(&self, s: M::State) -> bool {
        match *self {
            Some(v) => v.mappable(s),
            None => true,
        }
    }

    open spec fn maps_to(&self, s: M::State, out: Option<T::Output>) -> bool {
        match *self {
            Some(v) => out is Some && v.maps_to(s, out->0),
            None => out is None,
        }
    }

    open spec fn after(&self, s: M::State) -> M::State {
        match *self {
            Some(v) => v.after(s),
            None => s,
        }
    }

    proof fn lemma_mappable_stays(&self, s: M::State, t: M::State) {
        match *self {
            Some(v) => {
                v.lemma_mappable_stays(s, t);
            },
            None => {},
        }
    }

    fn map_with(&self, mapper: &mut M) -> (out: Option<T::Output>) {
        proof {
            let tables = M::tables(mapper.state());
            lemma_extension(tables, tables, tables);
        }
        match self {
            Some(v) => Some(v.map_with(mapper)),
            None => None,
        }
    }
}

/// The state of the mapper after it has mapped the first `n` of `items`.
pub open spec fn after_items<M: Mapper, T: MapWith<M>>(items: Seq<T>, s: M::State, n: nat) -> M::State
    decreases n,
{
    if n == 0 {
        s
    } else {
        items[n - 1].after(after_items::<M, T>(items, s, (n - 1) as nat))
    }
}

impl<M: Mapper, T: MapWith<M>> MapWith<M> for Vec<T> {
    type Output = Vec<T::Output>;

    open spec fn mappable(&self, s: M::State) -> bool {
        forall|i: int| 0 <= i < self@.len() ==> (#[trigger] self@[i]).mappable(s)
    }

    open spec fn maps_to(&self, s: M::State, out: Vec<T::Output>) -> bool {
        &&& out@.len() == self@.len()
        &&& forall|i: int|
            0 <= i < self@.len() ==> (#[trigger] self@[i]).maps_to(
                after_items::<M, T>(self@, s, i as nat),
                out@[i],
            )
    }

    open spec fn after(&self, s: M::State) -> M::State {
        after_items::<M, T>(self@, s, self@.len())
    }

    proof fn lemma_mappable_stays(&self, s: M::State, t: M::State) {
        assert forall|i: int| 0 <= i < self@.len() implies (#[trigger] self@[i]).mappable(t) by {
            self@[i].lemma_mappable_stays(s, t);
        }
    }

    fn map_with(&self, mapper: &mut M) -> (out: Vec<T::Output>) {
        let mut out: Vec<T::Output> = Vec::new();
        let mut i: usize = 0;
        proof {
            let tables = M::tables(mapper.state());
            lemma_extension(tables, tables, tables);
        }
        while i < self.len()
            invariant
                i <= self.len(),
                mapper.wf(),
                out@.len() == i,
                mapper.state() == after_items::<M, T>(self@, old(mapper).state(), i as nat),
                M::tables(old(mapper).state()).extended_by(M::tables(mapper.state())),
                forall|k: int| 0 <= k < self@.len() ==> (#[trigger] self@[k]).mappable(mapper.state()),
                forall|k: int|
                    0 <= k < i ==> (#[trigger] self@[k]).maps_to(
                        after_items::<M, T>(self@, old(mapper).state(), k as nat),
                        out@[k],
                    ),
            decreases self.len() - i,
        {
            let ghost before = mapper.state();
            let image = self[i].map_with(mapper);
            out.push(image);
            proof {
                lemma_extension(
                    M::tables(old(mapper).state()),
                    M::tables(before),
                    M::tables(mapper.state()),
                );
                assert forall|k: int| 0 <= k < self@.len() implies (#[trigger] self@[k]).mappable(
                    mapper.state(),
                ) by {
                    self@[k].lemma_mappable_stays(before, mapper.state());
                }
            }
            i = i + 1;
        }
        out
    }
}

/// The images of the generic arguments of `list`, each mapped by the mapper
/// as the arguments before it have left it.
pub open spec fn generics_image<M: Mapper>(list: Seq<Generic>, s: M::State) -> Seq<Generic> {
    Seq::new(
        list.len(),
        |i: int|
            Generic::Ty(
                ty_image::<M>(after_items::<M, Generic>(list, s, i as nat), generic_ty(list[i])),
            ),
    )
}

/// The state of the mapper after it has mapped the arguments of the list
/// that `key` stands for.
pub open spec fn after_arguments<M: Mapper>(key: Generics, s: M::State) -> M::State {
    let list = M::tables(s).generics[key.index as int];
    after_items::<M, Generic>(list, s, list.len())
}

/// The images of the arguments of the list that `key` stands for.
pub open spec fn arguments_image<M: Mapper>(key: Generics, s: M::State) -> Seq<Generic> {
    generics_image::<M>(M::tables(s).generics[key.index as int], s)
}

/// The state of the mapper after it has mapped the list that `key` stands
/// for: the arguments are mapped, and their images are interned as a
/// list, if the tables have room for it.
pub open spec fn after_list<M: Mapper>(key: Generics, s: M::State) -> M::State {
    let arguments = after_arguments::<M>(key, s);
    if M::tables(arguments).generics.len() < u32::MAX {
        M::after_generics(arguments, arguments_image::<M>(key, s))
    } else {
        arguments
    }
}

impl<M: Mapper> MapWith<M> for Generics {
    /// The key of the mapped list; `None` where the tables are full when
    /// the list is to be interned.
    type Output = Option<Generics>;

    open spec fn mappable(&self, s: M::State) -> bool {
        self.index < M::tables(s).generics.len()
    }

    /// The key that comes back stands, in the tables as the mapper leaves
    /// them, for the list of the images of the arguments, in their order;
    /// and the tables are the tables after the arguments were mapped, with
    /// that list interned.
    open spec fn maps_to(&self, s: M::State, out: Option<Generics>) -> bool {
        let arguments = after_arguments::<M>(*self, s);
        let images = arguments_image::<M>(*self, s);
        let tables = M::tables(after_list::<M>(*self, s));
        match out {
            Some(key) => {
                &&& M::tables(arguments).generics.len() < u32::MAX
                &&& tables.generics == interned(M::tables(arguments).generics, images)
                &&& tables.perms == M::tables(arguments).perms
                &&& tables.bases == M::tables(arguments).bases
                &&& key.index == tables.generics.index_of(images)
                &&& key.index < tables.generics.len()
                &&& tables.generics[key.index as int] == images
            },
            None => M::tables(arguments).generics.len() >= u32::MAX,
        }
    }

    open spec fn after(&self, s: M::State) -> M::State {
        after_list::<M>(*self, s)
    }

    proof fn lemma_mappable_stays(&self, s: M::State, t: M::State) {
    }

    fn map_with(&self, mapper: &mut M) -> (out: Option<Generics>) {
        let tables = mapper.interners();
        let ghost start = M::tables(old(mapper).state());
        proof {
            lemma_extension(start, start, start);
            assert(start.has_generics(start.generics[self.index as int]));
        }
        let data = tables.untern_generics(*self);
        let mut copy: Vec<Generic> = Vec::new();
        let mut i: usize = 0;
        while i < data.len()
            invariant
                i <= data.len(),
                copy@ == data@.take(i as int),
            decreases data.len() - i,
        {
            copy.push(data[i]);
            proof {
                assert(data@.take(i as int + 1) =~= data@.take(i as int).push(data@[i as int]));
            }
            i = i + 1;
        }
        proof {
            assert(data@.take(data@.len() as int) =~= data@);
        }
        let mut images: Vec<Generic> = Vec::new();
        let mut i: usize = 0;
        while i < copy.len()
            invariant
                i <= copy.len(),
                mapper.wf(),
                copy@ == start.generics[self.index as int],
                start == M::tables(old(mapper).state()),
                images@.len() == i,
                mapper.state() == after_items::<M, Generic>(copy@, old(mapper).state(), i as nat),
                start.extended_by(M::tables(mapper.state())),
                start.has_generics(copy@),
                M::tables(mapper.state()).has_generics(images@),
                forall|k: int|
                    0 <= k < i ==> #[trigger] images@[k] == generics_image::<M>(
                        copy@,
                        old(mapper).state(),
                    )[k],
            decreases copy.len() - i,
        {
            let ghost before = M::tables(mapper.state());
            let ghost images_before = images@;
            proof {
                lemma_extension(start, before, before);
                assert(before.has_ty(generic_ty(copy@[i as int])));
            }
            let image = copy[i].map_with(mapper);
            images.push(image);
            proof {
                let now = M::tables(mapper.state());
                lemma_extension(start, before, now);
                lemma_extension(before, now, now);
                assert forall|k: int| 0 <= k < images@.len() implies now.has_ty(
                    generic_ty(#[trigger] images@[k]),
                ) by {
                    if k < images_before.len() {
                        assert(images@[k] == images_before[k]);
                        assert(before.has_ty(generic_ty(images_before[k])));
                    }
                }
            }
            i = i + 1;
        }
        proof {
            assert(images@ =~= generics_image::<M>(copy@, old(mapper).state()));
        }
        let ghost before = M::tables(mapper.state());
        if mapper.interners().generics_count() >= u32::MAX as usize {
            return None;
        }
        let key = mapper.intern_generics(images);
        proof {
            let after = M::tables(mapper.state());
            lemma_interned_wf(before.generics, images@);
            assert(before.extended_by(after)) by {
                assert(before.perms =~= after.perms.subrange(0, before.perms.len() as int));
                assert(before.bases =~= after.bases.subrange(0, before.bases.len() as int));
            }
            lemma_extension(start, before, after);
        }
        Some(key)
    }
}

/// A mapper that hands every permission and every skeleton back and
/// stays as it is leaves every argument of a list as it is.
pub proof fn lemma_identity_items<M: Mapper>(list: Seq<Generic>, s: M::State, n: nat)
    requires
        forall|p: Perm|
            #![trigger M::perm_image(s, p)]
            #![trigger M::after_perm(s, p)]
            M::perm_image(s, p) == p && M::after_perm(s, p) == s,
        forall|b: Base|
            #![trigger M::base_image(s, b)]
            #![trigger M::after_base(s, b)]
            M::base_image(s, b) == b && M::after_base(s, b) == s,
        n <= list.len(),
    ensures
        after_items::<M, Generic>(list, s, n) == s,
        generics_image::<M>(list, s) == list,
    decreases n,
{
    if n > 0 {
        lemma_identity_items::<M>(list, s, (n - 1) as nat);
        let ty = generic_ty(list[n - 1]);
        assert(M::after_perm(s, ty.perm) == s);
        assert(M::after_base(s, ty.base) == s);
    }
    assert forall|i: int| 0 <= i < list.len() implies #[trigger] generics_image::<M>(list, s)[i]
        == list[i] by {
        lemma_identity_items_upto::<M>(list, s, i as nat);
        let ty = generic_ty(list[i]);
        assert(M::perm_image(s, ty.perm) == ty.perm);
        assert(M::base_image(s, ty.base) == ty.base);
    }
    assert(generics_image::<M>(list, s) =~= list);
}

/// The same, for the state alone.
proof fn lemma_identity_items_upto<M: Mapper>(list: Seq<Generic>, s: M::State, n: nat)
    requires
        forall|p: Perm|
            #![trigger M::perm_image(s, p)]
            #![trigger M::after_perm(s, p)]
            M::perm_image(s, p) == p && M::after_perm(s, p) == s,
        forall|b: Base|
            #![trigger M::base_image(s, b)]
            #![trigger M::after_base(s, b)]
            M::base_image(s, b) == b && M::after_base(s, b) == s,
        n <= list.len(),
    ensures
        after_items::<M, Generic>(list, s, n) == s,
    decreases n,
{
    if n > 0 {
        lemma_identity_items_upto::<M>(list, s, (n - 1) as nat);
        let ty = generic_ty(list[n - 1]);
        assert(M::after_perm(s, ty.perm) == s);
        assert(M::after_base(s, ty.base) == s);
    }
}

/// With a mapper that hands every permission and every skeleton back and
/// stays as it is, the key of a list comes back as it is.
pub proof fn lemma_identity_keeps_key<M: Mapper>(key: Generics, s: M::State, out: Option<Generics>)
    requires
        M::tables(s).wf(),
        key.index < M::tables(s).generics.len(),
        forall|p: Perm|
            #![trigger M::perm_image(s, p)]
            #![trigger M::after_perm(s, p)]
            M::perm_image(s, p) == p && M::after_perm(s, p) == s,
        forall|b: Base|
            #![trigger M::base_image(s, b)]
            #![trigger M::after_base(s, b)]
            M::base_image(s, b) == b && M::after_base(s, b) == s,
        <Generics as MapWith<M>>::maps_to(&key, s, out),
    ensures
        M::tables(s).generics.len() < u32::MAX ==> out == Some(key),
        M::tables(s).generics.len() >= u32::MAX ==> out is None,
{
    let list = M::tables(s).generics[key.index as int];
    lemma_identity_items::<M>(list, s, list.len());
    if M::tables(s).generics.len() < u32::MAX {
        let found = out->0;
        let tables = M::tables(after_list::<M>(key, s));
        assert(M::tables(s).generics.contains(list));
        assert(tables.generics == M::tables(s).generics);
        assert(tables.generics[found.index as int] == tables.generics[key.index as int]);
    }
}

} // verus!
