use lark_type_check::ty::{Base, InferVar};
use lark_type_check::unify::{TypeMismatch, UnificationTable};

#[test]
fn fresh_variables_are_unresolved_and_apart() {
    let mut table = UnificationTable::new();
    let a = table.new_variable();
    let b = table.new_variable();
    assert_eq!(a, InferVar { index: 0 });
    assert_eq!(b, InferVar { index: 1 });
    assert_eq!(table.count(), 2);
    assert_eq!(table.resolve(a), None);
    assert_eq!(table.find(a), a);
    assert_eq!(table.find(b), b);
}

#[test]
fn unify_makes_both_resolve_alike() {
    let mut table = UnificationTable::new();
    let a = table.new_variable();
    let b = table.new_variable();
    let c = table.new_variable();
    assert_eq!(table.unify(a, b), Ok(()));
    assert_eq!(table.resolve(a), table.resolve(b));
    assert_eq!(table.assign(b, Base { index: 7 }), Ok(()));
    assert_eq!(table.resolve(a), Some(Base { index: 7 }));
    assert_eq!(table.resolve(b), Some(Base { index: 7 }));
    assert_eq!(table.resolve(c), None);
    // both variables of the class are reported, in ascending order
    assert_eq!(table.drain_events(), vec![a, b]);
    assert_eq!(table.drain_events(), vec![]);
}

#[test]
fn unify_propagates_a_known_value() {
    let mut table = UnificationTable::new();
    let a = table.new_variable();
    let b = table.new_variable();
    assert_eq!(table.assign(a, Base { index: 3 }), Ok(()));
    assert_eq!(table.drain_events(), vec![a]);
    assert_eq!(table.unify(a, b), Ok(()));
    assert_eq!(table.resolve(b), Some(Base { index: 3 }));
    assert_eq!(table.drain_events(), vec![b]);
    assert_eq!(table.unify(b, a), Ok(()));
    assert_eq!(table.drain_events(), vec![]);
}

#[test]
fn mismatch_fails_and_changes_nothing() {
    let mut table = UnificationTable::new();
    let a = table.new_variable();
    let b = table.new_variable();
    let c = table.new_variable();
    table.assign(a, Base { index: 1 }).unwrap();
    table.assign(b, Base { index: 2 }).unwrap();
    table.drain_events();
    assert_eq!(
        table.unify(a, b),
        Err(TypeMismatch { left: Base { index: 1 }, right: Base { index: 2 } })
    );
    assert_eq!(table.resolve(a), Some(Base { index: 1 }));
    assert_eq!(table.resolve(b), Some(Base { index: 2 }));
    assert_eq!(table.resolve(c), None);
    assert_eq!(table.find(a), a);
    assert_eq!(table.find(b), b);
    assert_eq!(table.drain_events(), vec![]);
    assert_eq!(
        table.assign(a, Base { index: 9 }),
        Err(TypeMismatch { left: Base { index: 1 }, right: Base { index: 9 } })
    );
    assert_eq!(table.resolve(a), Some(Base { index: 1 }));
    assert_eq!(table.assign(a, Base { index: 1 }), Ok(()));
}

#[test]
fn the_class_of_the_first_joins_the_second() {
    let mut table = UnificationTable::new();
    let a = table.new_variable();
    let b = table.new_variable();
    let c = table.new_variable();
    table.unify(a, b).unwrap();
    table.unify(b, c).unwrap();
    assert_eq!(table.find(a), c);
    assert_eq!(table.find(b), c);
    assert_eq!(table.find(c), c);
}
