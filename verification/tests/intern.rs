use lark_type_check::intern::TyInterners;
use lark_type_check::ty::{
    Base, BaseData, BaseKind, BoundVar, Entity, Generic, Generics, InferVar, Perm, PermData,
    PermKind, PermVar, Placeholder, Ty, Universe,
};

#[test]
fn equal_data_gets_one_key() {
    let mut tables = TyInterners::new();
    let own = tables.intern_perm(PermData::Known(PermKind::Own));
    let var = tables.intern_perm(PermData::Inferred(PermVar { index: 4 }));
    let again = tables.intern_perm(PermData::Known(PermKind::Own));
    assert_eq!(own, Perm { index: 0 });
    assert_eq!(var, Perm { index: 1 });
    assert_eq!(again, own);
    assert_eq!(tables.perm_count(), 2);
    assert_eq!(tables.untern_perm(var), PermData::Inferred(PermVar { index: 4 }));
    assert_eq!(tables.find_perm(PermData::Known(PermKind::Borrow)), None);
    assert_eq!(tables.find_perm(PermData::Known(PermKind::Own)), Some(own));
}

#[test]
fn skeletons_and_generic_lists_are_interned() {
    let mut tables = TyInterners::new();
    let share = tables.intern_perm(PermData::Known(PermKind::Share));
    let none = tables.intern_generics(vec![]);
    let int = tables.intern_base(BaseData::Known { kind: BaseKind::Named(Entity { index: 1 }), generics: none });
    let one = tables.intern_generics(vec![Generic::Ty(Ty { perm: share, base: int })]);
    let boxed = tables.intern_base(BaseData::Known { kind: BaseKind::Named(Entity { index: 2 }), generics: one });
    assert_eq!(none, Generics { index: 0 });
    assert_eq!(one, Generics { index: 1 });
    assert_eq!(int, Base { index: 0 });
    assert_eq!(boxed, Base { index: 1 });
    assert_eq!(tables.intern_generics(vec![]), none);
    assert_eq!(tables.intern_generics(vec![Generic::Ty(Ty { perm: share, base: int })]), one);
    assert_eq!(tables.find_generics(&vec![Generic::Ty(Ty { perm: share, base: boxed })]), None);
    assert_eq!(
        tables.intern_base(BaseData::Known { kind: BaseKind::Named(Entity { index: 2 }), generics: one }),
        boxed
    );
    assert_eq!(tables.untern_generics(one), &vec![Generic::Ty(Ty { perm: share, base: int })]);
    assert_eq!(
        tables.untern_base(boxed),
        BaseData::Known { kind: BaseKind::Named(Entity { index: 2 }), generics: one }
    );
    assert_eq!(tables.base_count(), 2);
    assert_eq!(tables.generics_count(), 2);
    let var = tables.intern_base(BaseData::Inferred(InferVar { index: 0 }));
    let rigid = tables.intern_base(BaseData::Placeholder(Placeholder {
        universe: Universe { depth: 0 },
        bound_var: BoundVar { index: 0 },
    }));
    assert_eq!(tables.find_base(BaseData::Inferred(InferVar { index: 0 })), Some(var));
    assert_eq!(tables.find_base(BaseData::Inferred(InferVar { index: 1 })), None);
    assert_eq!(rigid, Base { index: 3 });
}
