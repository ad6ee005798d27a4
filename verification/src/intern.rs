//! Interning: structurally equal data gets one small key, for good.

use crate::ty::{Base, BaseData, Generic, Generics, Perm, PermData, Ty};
use vstd::prelude::*;

verus! {

/// `s` with `x` appended unless `s` holds it already.
pub open spec fn interned<T>(s: Seq<T>, x: T) -> Seq<T> {
    if s.contains(x) {
        s
    } else {
        s.push(x)
    }
}

/// The three tables as sequences; a key is an index into its sequence.
pub struct InternersView {
    pub perms: Seq<PermData>,
    pub bases: Seq<BaseData>,
    pub generics: Seq<Seq<Generic>>,
}

/// The intern tables for permissions, type skeletons and generic lists.
pub struct TyInterners {
    perms: Vec<PermData>,
    bases: Vec<BaseData>,
    generics: Vec<Vec<Generic>>,
}

impl View for TyInterners {
    type V = InternersView;

    closed spec fn view(&self) -> InternersView {
        InternersView {
            perms: self.perms@,
            bases: self.bases@,
            generics: Seq::new(self.generics@.len(), |i: int| self.generics@[i]@),
        }
    }
}

/// The type of a generic argument.
pub open spec fn generic_ty(generic: Generic) -> Ty {
    match generic {
        Generic::Ty(ty) => ty,
    }
}

impl InternersView {
    /// Both keys of `ty` are keys of these tables.
    pub open spec fn has_ty(self, ty: Ty) -> bool {
        ty.perm.index < self.perms.len() && ty.base.index < self.bases.len()
    }

    /// Every generic argument in `list` is a type of these tables.
    pub open spec fn has_generics(self, list: Seq<Generic>) -> bool {
        forall|i: int| 0 <= i < list.len() ==> self.has_ty(generic_ty(#[trigger] list[i]))
    }

    /// The generic list of `data`, if it has one, is a key of these tables.
    pub open spec fn has_base_data(self, data: BaseData) -> bool {
        data matches BaseData::Known { generics, .. } ==> generics.index < self.generics.len()
    }

    /// No entry occurs twice, every index fits a key, every key that an
    /// entry mentions is a key of the tables, and a type skeleton is
    /// younger than the skeletons of its own generic arguments.
    pub open spec fn wf(self) -> bool {
        &&& self.perms.no_duplicates()
        &&& self.bases.no_duplicates()
        &&& self.generics.no_duplicates()
        &&& self.perms.len() <= u32::MAX
        &&& self.bases.len() <= u32::MAX
        &&& self.generics.len() <= u32::MAX
        &&& forall|b: int| 0 <= b < self.bases.len()
            ==> self.has_base_data(#[trigger] self.bases[b])
        &&& forall|g: int|
            0 <= g < self.generics.len() ==> self.has_generics(#[trigger] self.generics[g])
        &&& forall|b: int, i: int|
            #![trigger self.bases[b], self.generics[self.bases[b]->generics.index as int][i]]
            0 <= b < self.bases.len() && self.bases[b] is Known && 0 <= i
                < self.generics[self.bases[b]->generics.index as int].len() ==> generic_ty(
                self.generics[self.bases[b]->generics.index as int][i],
            ).base.index < b
    }

    /// Every key of `self` means the same in `other`.
    pub open spec fn extended_by(self, other: InternersView) -> bool {
        &&& self.perms.is_prefix_of(other.perms)
        &&& self.bases.is_prefix_of(other.bases)
        &&& self.generics.is_prefix_of(other.generics)
    }
}

/// Tables extend themselves, and extension goes on along a chain; keys
/// stay keys, and mean what they meant.
pub proof fn lemma_extension(a: InternersView, b: InternersView, c: InternersView)
    requires
        a.extended_by(b),
        b.extended_by(c),
    ensures
        a.extended_by(a),
        a.extended_by(c),
        forall|ty: Ty| a.has_ty(ty) ==> #[trigger] b.has_ty(ty),
        forall|list: Seq<Generic>| a.has_generics(list) ==> #[trigger] b.has_generics(list),
        forall|data: BaseData| a.has_base_data(data) ==> #[trigger] b.has_base_data(data),
        forall|i: int| 0 <= i < a.perms.len() ==> #[trigger] b.perms[i] == a.perms[i],
        forall|i: int| 0 <= i < a.bases.len() ==> #[trigger] b.bases[i] == a.bases[i],
        forall|i: int| 0 <= i < a.generics.len() ==> #[trigger] b.generics[i] == a.generics[i],
{
    assert(a.perms =~= a.perms.subrange(0, a.perms.len() as int));
    assert(a.bases =~= a.bases.subrange(0, a.bases.len() as int));
    assert(a.generics =~= a.generics.subrange(0, a.generics.len() as int));
    assert(a.perms =~= c.perms.subrange(0, a.perms.len() as int)) by {
        assert forall|i: int| 0 <= i < a.perms.len() implies a.perms[i] == c.perms[i] by {
            assert(a.perms[i] == b.perms.subrange(0, a.perms.len() as int)[i]);
            assert(b.perms[i] == c.perms.subrange(0, b.perms.len() as int)[i]);
        }
    }
    assert(a.bases =~= c.bases.subrange(0, a.bases.len() as int)) by {
        assert forall|i: int| 0 <= i < a.bases.len() implies a.bases[i] == c.bases[i] by {
            assert(a.bases[i] == b.bases.subrange(0, a.bases.len() as int)[i]);
            assert(b.bases[i] == c.bases.subrange(0, b.bases.len() as int)[i]);
        }
    }
    assert(a.generics =~= c.generics.subrange(0, a.generics.len() as int)) by {
        assert forall|i: int| 0 <= i < a.generics.len() implies a.generics[i] == c.generics[i] by {
            assert(a.generics[i] == b.generics.subrange(0, a.generics.len() as int)[i]);
            assert(b.generics[i] == c.generics.subrange(0, b.generics.len() as int)[i]);
        }
    }
    assert forall|i: int| 0 <= i < a.perms.len() implies #[trigger] b.perms[i] == a.perms[i] by {
        assert(a.perms[i] == b.perms.subrange(0, a.perms.len() as int)[i]);
    }
    assert forall|i: int| 0 <= i < a.bases.len() implies #[trigger] b.bases[i] == a.bases[i] by {
        assert(a.bases[i] == b.bases.subrange(0, a.bases.len() as int)[i]);
    }
    assert forall|i: int| 0 <= i < a.generics.len() implies #[trigger] b.generics[i]
        == a.generics[i] by {
        assert(a.generics[i] == b.generics.subrange(0, a.generics.len() as int)[i]);
    }
    assert forall|list: Seq<Generic>| a.has_generics(list) implies #[trigger] b.has_generics(
        list,
    ) by {
        assert forall|i: int| 0 <= i < list.len() implies b.has_ty(generic_ty(#[trigger] list[i])) by {
            assert(a.has_ty(generic_ty(list[i])));
        }
    }
}

pub proof fn lemma_interned_wf<T>(s: Seq<T>, x: T)
    requires
        s.no_duplicates(),
    ensures
        interned(s, x).no_duplicates(),
        interned(s, x).contains(x),
        s.is_prefix_of(interned(s, x)),
        interned(s, x).len() <= s.len() + 1,
        interned(s, x)[interned(s, x).index_of(x)] == x,
        0 <= interned(s, x).index_of(x) < interned(s, x).len(),
{
    let t = interned(s, x);
    if !s.contains(x) {
        assert(t[s.len() as int] == x);
        assert forall|i: int, j: int| 0 <= i < t.len() && 0 <= j < t.len() && i != j implies t[i]
            != t[j] by {
            if i < s.len() && j < s.len() {
            } else if i < s.len() {
                assert(s.contains(s[i]));
            } else {
                assert(s.contains(s[j]));
            }
        }
    }
    assert(t.contains(x));
}

impl TyInterners {
    pub open spec fn wf(&self) -> bool {
        self@.wf()
    }

    /// Tables that hold nothing yet.
    pub fn new() -> (tables: TyInterners)
        ensures
            tables.wf(),
            tables@.perms.len() == 0,
            tables@.bases.len() == 0,
            tables@.generics.len() == 0,
    {
        TyInterners { perms: Vec::new(), bases: Vec::new(), generics: Vec::new() }
    }

    /// How many permissions have a key.
    pub fn perm_count(&self) -> (n: usize)
        ensures
            n == self@.perms.len(),
    {
        self.perms.len()
    }

    /// How many type skeletons have a key.
    pub fn base_count(&self) -> (n: usize)
        ensures
            n == self@.bases.len(),
    {
        self.bases.len()
    }

    /// How many generic lists have a key.
    pub fn generics_count(&self) -> (n: usize)
        ensures
            n == self@.generics.len(),
    {
        self.generics.len()
    }

    /// The key of `data`, if it has one.
    pub fn find_perm(&self, data: PermData) -> (found: Option<Perm>)
        requires
            self.wf(),
        ensures
            found is Some <==> self@.perms.contains(data),
            found matches Some(key) ==> key.index < self@.perms.len()
                && self@.perms[key.index as int]
                == data,
    {
        let mut i: usize = 0;
        while i < self.perms.len()
            invariant
                i <= self.perms.len(),
                self.perms.len() <= u32::MAX,
                forall|j: int| 0 <= j < i ==> self.perms@[j] != data,
            decreases self.perms.len() - i,
        {
            if self.perms[i] == data {
                return Some(Perm { index: i as u32 });
            }
            i = i + 1;
        }
        None
    }

    /// The key of `data`; a new one if `data` had none.
    pub fn intern_perm(&mut self, data: PermData) -> (key: Perm)
        requires
            old(self).wf(),
            old(self)@.perms.len() < u32::MAX,
        ensures
            final(self).wf(),
            final(self)@.perms == interned(old(self)@.perms, data),
            final(self)@.bases == old(self)@.bases,
            final(self)@.generics == old(self)@.generics,
            old(self)@.extended_by(final(self)@),
            key.index == final(self)@.perms.index_of(data),
            key.index < final(self)@.perms.len(),
            final(self)@.perms[key.index as int] == data,
    {
        proof {
            lemma_interned_wf(self@.perms, data);
        }
        match self.find_perm(data) {
            Some(key) => {
                proof {
                    self@.perms.index_of_first_ensures(data);
                    let k = self@.perms.index_of(data);
                    assert(self@.perms[k] == data);
                }
                key
            },
            None => {
                let n: usize = self.perms.len();
                self.perms.push(data);
                proof {
                    let k = self@.perms.index_of(data);
                    assert(self@.perms[n as int] == data);
                    assert(self@.perms[k] == data);
                    assert(self@.generics =~= old(self)@.generics);
                }
                Perm { index: n as u32 }
            },
        }
    }

    /// What `key` stands for.
    pub fn untern_perm(&self, key: Perm) -> (data: PermData)
        requires
            key.index < self@.perms.len(),
        ensures
            data == self@.perms[key.index as int],
    {
        self.perms[key.index as usize]
    }

    /// The key of `data`, if it has one.
    pub fn find_base(&self, data: BaseData) -> (found: Option<Base>)
        requires
            self.wf(),
        ensures
            found is Some <==> self@.bases.contains(data),
            found matches Some(key) ==> key.index < self@.bases.len()
                && self@.bases[key.index as int]
                == data,
    {
        let mut i: usize = 0;
        while i < self.bases.len()
            invariant
                i <= self.bases.len(),
                self.bases.len() <= u32::MAX,
                forall|j: int| 0 <= j < i ==> self.bases@[j] != data,
            decreases self.bases.len() - i,
        {
            if self.bases[i] == data {
                return Some(Base { index: i as u32 });
            }
            i = i + 1;
        }
        None
    }

    /// The key of `data`; a new one if `data` had none.
    pub fn intern_base(&mut self, data: BaseData) -> (key: Base)
        requires
            old(self).wf(),
            old(self)@.bases.len() < u32::MAX,
            old(self)@.has_base_data(data),
        ensures
            final(self).wf(),
            final(self)@.bases == interned(old(self)@.bases, data),
            final(self)@.perms == old(self)@.perms,
            final(self)@.generics == old(self)@.generics,
            old(self)@.extended_by(final(self)@),
            key.index == final(self)@.bases.index_of(data),
            key.index < final(self)@.bases.len(),
            final(self)@.bases[key.index as int] == data,
    {
        proof {
            lemma_interned_wf(self@.bases, data);
        }
        match self.find_base(data) {
            Some(key) => {
                proof {
                    self@.bases.index_of_first_ensures(data);
                    let k = self@.bases.index_of(data);
                    assert(self@.bases[k] == data);
                }
                key
            },
            None => {
                let n: usize = self.bases.len();
                self.bases.push(data);
                proof {
                    let k = self@.bases.index_of(data);
                    assert(self@.bases[n as int] == data);
                    assert(self@.bases[k] == data);
                    assert(self@.generics =~= old(self)@.generics);
                    assert forall|b: int| 0 <= b < self@.bases.len() implies self@.has_base_data(
                        #[trigger] self@.bases[b],
                    ) by {
                        if b < n {
                            assert(self@.bases[b] == old(self)@.bases[b]);
                        }
                    }
                    assert forall|b: int, i: int|
                        #![trigger self@.bases[b],
                            self@.generics[self@.bases[b]->generics.index as int][i]]
                        0 <= b < self@.bases.len() && self@.bases[b] is Known && 0 <= i
                            < self@.generics[self@.bases[b]->generics.index as int].len() implies generic_ty(
                        self@.generics[self@.bases[b]->generics.index as int][i],
                    ).base.index < b by {
                        let g = self@.bases[b]->generics.index as int;
                        if b < n {
                            assert(self@.bases[b] == old(self)@.bases[b]);
                            assert(generic_ty(old(self)@.generics[g][i]).base.index < b);
                        } else {
                            assert(old(self)@.has_generics(old(self)@.generics[g]));
                            assert(old(self)@.has_ty(generic_ty(old(self)@.generics[g][i])));
                        }
                    }
                    assert forall|g: int| 0 <= g < self@.generics.len() implies self@.has_generics(
                        #[trigger] self@.generics[g],
                    ) by {
                        assert(old(self)@.has_generics(old(self)@.generics[g]));
                        assert forall|i: int| 0 <= i < self@.generics[g].len() implies self@.has_ty(
                            generic_ty(#[trigger] self@.generics[g][i]),
                        ) by {
                            assert(old(self)@.has_ty(generic_ty(old(self)@.generics[g][i])));
                        }
                    }
                }
                Base { index: n as u32 }
            },
        }
    }

    /// What `key` stands for.
    pub fn untern_base(&self, key: Base) -> (data: BaseData)
        requires
            key.index < self@.bases.len(),
        ensures
            data == self@.bases[key.index as int],
    {
        self.bases[key.index as usize]
    }

    /// Whether two lists of generic arguments are the same.
    fn same_generics(a: &Vec<Generic>, b: &Vec<Generic>) -> (same: bool)
        ensures
            same == (a@ == b@),
    {
        if a.len() != b.len() {
            return false;
        }
        let mut i: usize = 0;
        while i < a.len()
            invariant
                i <= a.len(),
                a.len() == b.len(),
                forall|j: int| 0 <= j < i ==> a@[j] == b@[j],
            decreases a.len() - i,
        {
            if a[i] != b[i] {
                return false;
            }
            i = i + 1;
        }
        proof {
            assert(a@ =~= b@);
        }
        true
    }

    /// The key of the list `data`, if it has one.
    pub fn find_generics(&self, data: &Vec<Generic>) -> (found: Option<Generics>)
        requires
            self.wf(),
        ensures
            found is Some <==> self@.generics.contains(data@),
            found matches Some(key) ==> key.index < self@.generics.len()
                && self@.generics[key.index as int] == data@,
    {
        let mut i: usize = 0;
        while i < self.generics.len()
            invariant
                i <= self.generics.len(),
                self.generics.len() <= u32::MAX,
                self@.generics.len() == self.generics.len(),
                forall|j: int| 0 <= j < i ==> self@.generics[j] != data@,
            decreases self.generics.len() - i,
        {
            if Self::same_generics(&self.generics[i], data) {
                proof {
                    assert(self@.generics[i as int] == data@);
                }
                return Some(Generics { index: i as u32 });
            }
            i = i + 1;
        }
        None
    }

    /// The key of the list `data`; a new one if the list had none.
    pub fn intern_generics(&mut self, data: Vec<Generic>) -> (key: Generics)
        requires
            old(self).wf(),
            old(self)@.generics.len() < u32::MAX,
            old(self)@.has_generics(data@),
        ensures
            final(self).wf(),
            final(self)@.generics == interned(old(self)@.generics, data@),
            final(self)@.perms == old(self)@.perms,
            final(self)@.bases == old(self)@.bases,
            old(self)@.extended_by(final(self)@),
            key.index == final(self)@.generics.index_of(data@),
            key.index < final(self)@.generics.len(),
            final(self)@.generics[key.index as int] == data@,
    {
        proof {
            lemma_interned_wf(self@.generics, data@);
        }
        match self.find_generics(&data) {
            Some(key) => {
                proof {
                    self@.generics.index_of_first_ensures(data@);
                    let k = self@.generics.index_of(data@);
                    assert(self@.generics[k] == data@);
                }
                key
            },
            None => {
                let n: usize = self.generics.len();
                let ghost list = data@;
                self.generics.push(data);
                proof {
                    assert(self@.generics =~= old(self)@.generics.push(list));
                    let k = self@.generics.index_of(list);
                    assert(self@.generics[n as int] == list);
                    assert(self@.generics[k] == list);
                    assert forall|g: int| 0 <= g < self@.generics.len() implies self@.has_generics(
                        #[trigger] self@.generics[g],
                    ) by {
                        if g < n {
                            assert(old(self)@.has_generics(old(self)@.generics[g]));
                        }
                    }
                    assert forall|b: int, i: int|
                        #![trigger self@.bases[b],
                            self@.generics[self@.bases[b]->generics.index as int][i]]
                        0 <= b < self@.bases.len() && self@.bases[b] is Known && 0 <= i
                            < self@.generics[self@.bases[b]->generics.index as int].len() implies generic_ty(
                        self@.generics[self@.bases[b]->generics.index as int][i],
                    ).base.index < b by {
                        let g = self@.bases[b]->generics.index as int;
                        assert(old(self)@.has_base_data(old(self)@.bases[b]));
                        assert(self@.generics[g] == old(self)@.generics[g]);
                        assert(generic_ty(old(self)@.generics[g][i]).base.index < b);
                    }
                }
                Generics { index: n as u32 }
            },
        }
    }

    /// The list that `key` stands for.
    pub fn untern_generics(&self, key: Generics) -> (data: &Vec<Generic>)
        requires
            key.index < self@.generics.len(),
        ensures
            data@ == self@.generics[key.index as int],
    {
        &self.generics[key.index as usize]
    }
}

} // verus!
