use lark_type_check::intern::TyInterners;
use lark_type_check::map::{MapWith, Mapper};
use lark_type_check::substitute::{substitute_base, substitute_perm, Substitution};
use lark_type_check::ty::{
    Base, BaseData, BaseKind, BoundVar, Entity, Generic, Generics, Perm, PermData, PermKind,
    Placeholder, Ty, Universe,
};

struct World {
    tables: TyInterners,
    share: Perm,
    own: Perm,
    int: Base,
    boolean: Base,
    t: Base,
    u: Base,
    perm_t: Perm,
}

fn placeholder(index: u32) -> Placeholder {
    Placeholder { universe: Universe { depth: 1 }, bound_var: BoundVar { index } }
}

fn world() -> World {
    let mut tables = TyInterners::new();
    let share = tables.intern_perm(PermData::Known(PermKind::Share));
    let own = tables.intern_perm(PermData::Known(PermKind::Own));
    let perm_t = tables.intern_perm(PermData::Placeholder(placeholder(0)));
    let none = tables.intern_generics(vec![]);
    let int = tables.intern_base(BaseData::Known { kind: BaseKind::Named(Entity { index: 1 }), generics: none });
    let boolean =
        tables.intern_base(BaseData::Known { kind: BaseKind::Named(Entity { index: 0 }), generics: none });
    let t = tables.intern_base(BaseData::Placeholder(placeholder(0)));
    let u = tables.intern_base(BaseData::Placeholder(placeholder(1)));
    World { tables, share, own, int, boolean, t, u, perm_t }
}

fn pair_of(tables: &mut TyInterners, perm: Perm, first: Base, second: Base) -> Base {
    let generics = tables
        .intern_generics(vec![Generic::Ty(Ty { perm, base: first }), Generic::Ty(Ty { perm, base: second })]);
    tables.intern_base(BaseData::Known { kind: BaseKind::Named(Entity { index: 5 }), generics })
}

#[test]
fn a_placeholder_becomes_its_argument() {
    let mut w = world();
    let args = vec![Generic::Ty(Ty { perm: w.own, base: w.int })];
    assert_eq!(substitute_base(&mut w.tables, &args, w.t), w.int);
    assert_eq!(substitute_perm(&w.tables, &args, w.perm_t), w.own);
    // no argument for the second parameter: it stays
    assert_eq!(substitute_base(&mut w.tables, &args, w.u), w.u);
    assert_eq!(substitute_base(&mut w.tables, &args, w.boolean), w.boolean);
    assert_eq!(substitute_perm(&w.tables, &args, w.share), w.share);
    // a key that the tables do not hold stays
    assert_eq!(substitute_base(&mut w.tables, &args, Base { index: 77 }), Base { index: 77 });
}

#[test]
fn a_known_skeleton_is_rebuilt_from_the_images_of_its_arguments() {
    let mut w = world();
    let share = w.share;
    let declared = pair_of(&mut w.tables, share, w.t, w.u);
    let nested = pair_of(&mut w.tables, share, declared, w.t);
    let args = vec![
        Generic::Ty(Ty { perm: w.share, base: w.int }),
        Generic::Ty(Ty { perm: w.share, base: w.boolean }),
    ];
    let image = substitute_base(&mut w.tables, &args, declared);
    let expected = pair_of(&mut w.tables, share, w.int, w.boolean);
    assert_eq!(image, expected);
    assert_ne!(image, declared);
    let image = substitute_base(&mut w.tables, &args, nested);
    let expected = pair_of(&mut w.tables, share, expected, w.int);
    assert_eq!(image, expected);
}

#[test]
fn types_are_mapped_part_by_part() {
    let w = world();
    let args = vec![Generic::Ty(Ty { perm: w.own, base: w.int })];
    let mut mapper = Substitution::new(w.tables, args);
    let ty = Ty { perm: w.perm_t, base: w.t };
    assert_eq!(ty.map_with(&mut mapper), Ty { perm: w.own, base: w.int });
    assert_eq!(w.perm_t.map_with(&mut mapper), w.own);
    assert_eq!(w.t.map_with(&mut mapper), w.int);
    assert_eq!(w.boolean.map_with(&mut mapper), w.boolean);
    assert_eq!(Generic::Ty(ty).map_with(&mut mapper), Generic::Ty(Ty { perm: w.own, base: w.int }));
    assert_eq!(Some(ty).map_with(&mut mapper), Some(Ty { perm: w.own, base: w.int }));
    assert_eq!(None::<Ty>.map_with(&mut mapper), None);
    assert_eq!(
        vec![ty, Ty { perm: w.share, base: w.boolean }].map_with(&mut mapper),
        vec![Ty { perm: w.own, base: w.int }, Ty { perm: w.share, base: w.boolean }]
    );
    assert_eq!(Vec::<Ty>::new().map_with(&mut mapper), vec![]);
}

#[test]
fn a_generic_list_is_mapped_and_interned_again() {
    let mut w = world();
    let list = w.tables.intern_generics(vec![
        Generic::Ty(Ty { perm: w.perm_t, base: w.t }),
        Generic::Ty(Ty { perm: w.share, base: w.boolean }),
    ]);
    let plain = w.tables.intern_generics(vec![Generic::Ty(Ty { perm: w.share, base: w.boolean })]);
    let args = vec![Generic::Ty(Ty { perm: w.own, base: w.int })];
    let mut mapper = Substitution::new(w.tables, args);
    let image = list.map_with(&mut mapper).unwrap();
    assert_ne!(image, list);
    assert_eq!(
        mapper.interners().untern_generics(image),
        &vec![
            Generic::Ty(Ty { perm: w.own, base: w.int }),
            Generic::Ty(Ty { perm: w.share, base: w.boolean }),
        ]
    );
    // the same list has the same key, and a list without placeholders keeps its key
    assert_eq!(list.map_with(&mut mapper), Some(image));
    assert_eq!(plain.map_with(&mut mapper), Some(plain));
    assert_eq!(
        mapper.intern_generics(vec![Generic::Ty(Ty { perm: w.own, base: w.int })]),
        Generics { index: 4 }
    );
    let tables = mapper.into_tables();
    assert_eq!(tables.generics_count(), 5);
}
