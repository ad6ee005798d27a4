use lark_type_check::family::{BaseOnly, FullInference, TypeCheckFamily};
use lark_type_check::hir::{Declarations, Expression, FieldDeclaration, FnBody, Signature};
use lark_type_check::hir_typeck::{check_body, check_expression, execute, field_type, finish, run_ready};
use lark_type_check::intern::TyInterners;
use lark_type_check::ops::Op;
use lark_type_check::results::Error;
use lark_type_check::ty::{
    BaseData, BaseKind, Entity, Generics, Node, Perm, PermData, PermKind, Ty,
};
use lark_type_check::typeck::{Shallow, TypeChecker};

const POINT: Entity = Entity { index: 10 };
const POINT_X: Entity = Entity { index: 11 };
const X: u32 = 7;

fn tables() -> (TyInterners, Generics, Perm) {
    let mut tables = TyInterners::new();
    let none = tables.intern_generics(vec![]);
    let share = tables.intern_perm(PermData::Known(PermKind::Share));
    (tables, none, share)
}

fn declarations(fields: Vec<FieldDeclaration>, signatures: Vec<Signature>) -> Declarations {
    Declarations {
        boolean: Entity { index: 0 },
        integer: Entity { index: 1 },
        unsigned: Entity { index: 2 },
        unit: Entity { index: 3 },
        fields,
        signatures,
    }
}

fn empty_body(output: Ty) -> FnBody {
    FnBody { expressions: vec![Expression::Unit], root: Node { index: 0 }, variables: 0, parameters: vec![], output }
}

#[test]
fn equating_two_variables_and_then_one_of_them_resolves_both() {
    let (tables, _, _) = tables();
    let decls = declarations(vec![], vec![]);
    let mut this = TypeChecker::new(tables, &decls, Entity { index: 9 }, &empty_body(Ty {
        perm: Perm { index: 0 },
        base: lark_type_check::ty::Base { index: 0 },
    }));
    let a = BaseOnly::new_infer_ty(&mut this);
    let b = BaseOnly::new_infer_ty(&mut this);
    assert!(matches!(this.shallow(a.base), Shallow::Unresolved(_)));
    BaseOnly::equate_types(&mut this, Node { index: 0 }, a, b);
    let int = BaseOnly::int_type(&this);
    BaseOnly::equate_types(&mut this, Node { index: 0 }, b, int);
    assert_eq!(this.results.error_count(), 0);
    assert!(matches!(this.shallow(a.base), Shallow::Known { base, .. } if base == int.base));
    // a clash is reported once, at its cause, and changes nothing
    let boolean = BaseOnly::boolean_type(&this);
    BaseOnly::equate_types(&mut this, Node { index: 5 }, a, boolean);
    assert_eq!(this.results.error_count(), 1);
    assert_eq!(this.results.error(0), Error { location: Node { index: 5 } });
    assert!(matches!(this.shallow(a.base), Shallow::Known { base, .. } if base == int.base));
    // a clash with the sentinel is not reported again
    let error = BaseOnly::error_type(&this);
    BaseOnly::equate_types(&mut this, Node { index: 6 }, a, error);
    assert_eq!(this.results.error_count(), 1);
    let upper = BaseOnly::least_upper_bound(&mut this, Node { index: 7 }, int, boolean);
    assert_eq!(upper, error);
    assert_eq!(this.results.error(1), Error { location: Node { index: 7 } });
    assert_eq!(BaseOnly::least_upper_bound(&mut this, Node { index: 8 }, a, int), a);
    assert_eq!(this.results.error_count(), 2);
}

#[test]
fn a_suspended_field_access_runs_once_when_its_owner_is_resolved() {
    let (mut tables, none, share) = tables();
    let int = Ty {
        perm: share,
        base: tables.intern_base(BaseData::Known { kind: BaseKind::Named(Entity { index: 1 }), generics: none }),
    };
    let point = Ty {
        perm: share,
        base: tables.intern_base(BaseData::Known { kind: BaseKind::Named(POINT), generics: none }),
    };
    let decls = declarations(vec![FieldDeclaration { owner: POINT, name: X, entity: POINT_X, ty: int }], vec![]);
    let unit_body = empty_body(int);
    let mut this = TypeChecker::new(tables, &decls, Entity { index: 9 }, &unit_body);
    let owner = BaseOnly::new_infer_ty(&mut this);
    let first = BaseOnly::new_infer_ty(&mut this);
    let second = BaseOnly::new_infer_ty(&mut this);
    let var = match this.shallow(owner.base) {
        Shallow::Unresolved(v) => v,
        _ => panic!("a fresh variable is unresolved"),
    };
    this.suspend_field(var, owner, X, first, Node { index: 0 });
    this.suspend_field(var, owner, 99, second, Node { index: 0 });
    assert_eq!(this.ops.issued(), 2);
    assert_eq!(this.ops.blocked_count(var), 2);
    run_ready::<BaseOnly>(&mut this, &decls);
    assert_eq!(this.ops.released(), 0);
    BaseOnly::equate_types(&mut this, Node { index: 0 }, owner, point);
    run_ready::<BaseOnly>(&mut this, &decls);
    assert_eq!(this.ops.released(), 2);
    assert_eq!(this.ops.blocked_count(var), 0);
    assert!(matches!(this.shallow(first.base), Shallow::Known { base, .. } if base == int.base));
    // the second access names no field of the owner
    assert_eq!(this.results.error_count(), 1);
    assert!(matches!(this.shallow(second.base), Shallow::Known { kind: BaseKind::Error, .. }));
    assert_eq!(this.results.entity(Node { index: 0 }), Some(POINT_X));
    run_ready::<BaseOnly>(&mut this, &decls);
    assert_eq!(this.ops.released(), 2);
}

#[test]
fn field_types_and_operations_can_be_run_by_hand() {
    let (mut tables, none, share) = tables();
    let int = Ty {
        perm: share,
        base: tables.intern_base(BaseData::Known { kind: BaseKind::Named(Entity { index: 1 }), generics: none }),
    };
    let point = Ty {
        perm: share,
        base: tables.intern_base(BaseData::Known { kind: BaseKind::Named(POINT), generics: none }),
    };
    let decls = declarations(vec![FieldDeclaration { owner: POINT, name: X, entity: POINT_X, ty: int }], vec![]);
    let body = empty_body(int);
    let mut this = TypeChecker::new(tables, &decls, Entity { index: 9 }, &body);
    let seen = this.shallow(point.base);
    assert_eq!(field_type::<FullInference>(&mut this, &decls, Node { index: 0 }, point, seen, X).base, int.base);
    assert_eq!(this.perm_less.len(), 2);
    assert_eq!(this.perm_less_if.len(), 1);
    let target = FullInference::new_infer_ty(&mut this);
    execute::<FullInference>(
        &mut this,
        &decls,
        Op::FieldAccess { owner: point, name: X, target, cause: Node { index: 0 } },
    );
    assert!(matches!(this.shallow(target.base), Shallow::Known { base, .. } if base == int.base));
    // the unit body does not have the declared type
    check_body::<FullInference>(&mut this, &decls, &body);
    assert_eq!(check_expression::<FullInference>(&mut this, &decls, &body, Node { index: 0 }).base, this.primitives.unit);
    let checked = finish(this, &body);
    assert_eq!(checked.results.error_count(), 1);
    assert_eq!(checked.results.ty(Node { index: 0 }).base, checked.primitives.unit);
}
