use lark_type_check::hir::{Declarations, Expression, FieldDeclaration, FnBody, LiteralKind, Signature};
use lark_type_check::hir_typeck::{base_type_check, full_type_check, infer_kinds, Checked};
use lark_type_check::intern::TyInterners;
use lark_type_check::results::Error;
use lark_type_check::ty::{
    Base, BaseData, BaseKind, BoundVar, Entity, Generic, Generics, Node, Perm, PermData, PermKind,
    PermVar, Placeholder, Ty, Universe,
};

const BOOLEAN: Entity = Entity { index: 0 };
const INT: Entity = Entity { index: 1 };
const UINT: Entity = Entity { index: 2 };
const UNIT: Entity = Entity { index: 3 };
const POINT: Entity = Entity { index: 10 };
const POINT_X: Entity = Entity { index: 11 };
const MAKE_POINT: Entity = Entity { index: 12 };
const BOX: Entity = Entity { index: 20 };
const BOX_VALUE: Entity = Entity { index: 21 };
const MAKE_BOX: Entity = Entity { index: 22 };
const THIS_FN: Entity = Entity { index: 99 };
const X: u32 = 7;
const VALUE: u32 = 8;

struct World {
    tables: TyInterners,
    none: Generics,
    share: Perm,
}

fn world() -> World {
    let mut tables = TyInterners::new();
    let none = tables.intern_generics(vec![]);
    let share = tables.intern_perm(PermData::Known(PermKind::Share));
    World { tables, none, share }
}

impl World {
    fn named(&mut self, entity: Entity) -> Ty {
        let base =
            self.tables.intern_base(BaseData::Known { kind: BaseKind::Named(entity), generics: self.none });
        Ty { perm: self.share, base }
    }

    fn named_with(&mut self, entity: Entity, arguments: Vec<Ty>) -> Ty {
        let generics =
            self.tables.intern_generics(arguments.into_iter().map(Generic::Ty).collect());
        let base = self.tables.intern_base(BaseData::Known { kind: BaseKind::Named(entity), generics });
        Ty { perm: self.share, base }
    }

    fn parameter(&mut self, index: u32) -> Ty {
        let base = self.tables.intern_base(BaseData::Placeholder(Placeholder {
            universe: Universe { depth: 1 },
            bound_var: BoundVar { index },
        }));
        Ty { perm: self.share, base }
    }
}

fn declarations(fields: Vec<FieldDeclaration>, signatures: Vec<Signature>) -> Declarations {
    Declarations { boolean: BOOLEAN, integer: INT, unsigned: UINT, unit: UNIT, fields, signatures }
}

fn node(index: u32) -> Node {
    Node { index }
}

fn base_of(checked: &Checked, entity: Entity) -> Option<Base> {
    checked
        .tables
        .find_base(BaseData::Known { kind: BaseKind::Named(entity), generics: checked.primitives.no_generics })
}

#[test]
fn a_boolean_literal_has_the_boolean_type() {
    let mut w = world();
    let boolean = w.named(BOOLEAN);
    let body = FnBody {
        expressions: vec![Expression::Literal { kind: LiteralKind::Bool }],
        root: node(0),
        variables: 0,
        parameters: vec![],
        output: boolean,
    };
    let checked = base_type_check(w.tables, &declarations(vec![], vec![]), THIS_FN, &body);
    assert_eq!(checked.results.error_count(), 0);
    assert_eq!(checked.results.ty(node(0)), boolean);
    assert_eq!(checked.results.ty(node(0)).base, checked.primitives.boolean);
    assert_eq!(Some(checked.primitives.boolean), base_of(&checked, BOOLEAN));
}

#[test]
fn arms_without_an_upper_bound_are_one_error_at_the_conditional() {
    let mut w = world();
    let boolean = w.named(BOOLEAN);
    let int = w.named(INT);
    let body = FnBody {
        expressions: vec![
            Expression::Place { perm: PermKind::Share, variable: 0 },
            Expression::Literal { kind: LiteralKind::Int },
            Expression::Literal { kind: LiteralKind::Bool },
            Expression::If { condition: node(0), if_true: node(1), if_false: node(2) },
        ],
        root: node(3),
        variables: 1,
        parameters: vec![boolean],
        output: int,
    };
    let checked = base_type_check(w.tables, &declarations(vec![], vec![]), THIS_FN, &body);
    assert_eq!(checked.results.error_count(), 1);
    assert_eq!(checked.results.error(0), Error { location: node(3) });
    assert_eq!(checked.results.ty(node(3)).base, checked.primitives.error);
    assert_eq!(
        checked.tables.untern_base(checked.results.ty(node(3)).base),
        BaseData::Known { kind: BaseKind::Error, generics: checked.primitives.no_generics }
    );
    assert_eq!(checked.results.ty(node(0)), boolean);
    assert_eq!(checked.results.ty(node(1)), int);
    assert_eq!(checked.results.ty(node(2)), boolean);
}

#[test]
fn arms_of_one_type_give_that_type() {
    let mut w = world();
    let boolean = w.named(BOOLEAN);
    let int = w.named(INT);
    let body = FnBody {
        expressions: vec![
            Expression::Literal { kind: LiteralKind::Bool },
            Expression::Literal { kind: LiteralKind::Int },
            Expression::Literal { kind: LiteralKind::Int },
            Expression::If { condition: node(0), if_true: node(1), if_false: node(2) },
        ],
        root: node(3),
        variables: 0,
        parameters: vec![],
        output: int,
    };
    let checked = base_type_check(w.tables, &declarations(vec![], vec![]), THIS_FN, &body);
    assert_eq!(checked.results.error_count(), 0);
    assert_eq!(checked.results.ty(node(3)), int);
    assert_eq!(checked.results.ty(node(0)), boolean);
}

#[test]
fn a_condition_that_is_no_boolean_is_an_error_at_the_condition() {
    let mut w = world();
    let int = w.named(INT);
    let body = FnBody {
        expressions: vec![
            Expression::Literal { kind: LiteralKind::Int },
            Expression::Literal { kind: LiteralKind::Int },
            Expression::Literal { kind: LiteralKind::Int },
            Expression::If { condition: node(0), if_true: node(1), if_false: node(2) },
        ],
        root: node(3),
        variables: 0,
        parameters: vec![],
        output: int,
    };
    let checked = base_type_check(w.tables, &declarations(vec![], vec![]), THIS_FN, &body);
    assert_eq!(checked.results.error_count(), 1);
    assert_eq!(checked.results.error(0), Error { location: node(0) });
    assert_eq!(checked.results.ty(node(3)), int);
}

#[test]
fn a_wrong_result_type_is_an_error_at_the_root() {
    let mut w = world();
    let boolean = w.named(BOOLEAN);
    let body = FnBody {
        expressions: vec![Expression::Unit],
        root: node(0),
        variables: 0,
        parameters: vec![],
        output: boolean,
    };
    let checked = base_type_check(w.tables, &declarations(vec![], vec![]), THIS_FN, &body);
    assert_eq!(checked.results.error_count(), 1);
    assert_eq!(checked.results.error(0), Error { location: node(0) });
    assert_eq!(checked.results.ty(node(0)).base, checked.primitives.unit);
}

#[test]
fn an_error_node_is_not_reported_again() {
    let mut w = world();
    let boolean = w.named(BOOLEAN);
    let body = FnBody {
        expressions: vec![
            Expression::Error,
            Expression::Literal { kind: LiteralKind::Bool },
            Expression::If { condition: node(1), if_true: node(0), if_false: node(1) },
        ],
        root: node(2),
        variables: 0,
        parameters: vec![],
        output: boolean,
    };
    let checked = base_type_check(w.tables, &declarations(vec![], vec![]), THIS_FN, &body);
    assert_eq!(checked.results.error_count(), 0);
    assert_eq!(checked.results.ty(node(0)).base, checked.primitives.error);
    assert_eq!(checked.results.ty(node(2)).base, checked.primitives.error);
}

#[test]
fn a_field_of_a_known_owner_is_typed_at_once() {
    let mut w = world();
    let int = w.named(INT);
    let point = w.named(POINT);
    let decls = declarations(
        vec![FieldDeclaration { owner: POINT, name: X, entity: POINT_X, ty: int }],
        vec![Signature { function: MAKE_POINT, inputs: vec![], output: point }],
    );
    let body = FnBody {
        expressions: vec![
            Expression::Call { function: MAKE_POINT, arguments: vec![] },
            Expression::Field { owner: node(0), name: X },
        ],
        root: node(1),
        variables: 0,
        parameters: vec![],
        output: int,
    };
    let checked = base_type_check(w.tables, &decls, THIS_FN, &body);
    assert_eq!(checked.results.error_count(), 0);
    assert_eq!(checked.results.ty(node(0)), point);
    assert_eq!(checked.results.ty(node(1)), int);
    assert_eq!(checked.results.entity(node(1)), Some(POINT_X));
    assert_eq!(checked.results.entity(node(0)), None);
}

#[test]
fn a_field_of_an_unknown_owner_waits_until_the_owner_is_resolved() {
    let mut w = world();
    let int = w.named(INT);
    let unit = w.named(UNIT);
    let point = w.named(POINT);
    let decls = declarations(
        vec![FieldDeclaration { owner: POINT, name: X, entity: POINT_X, ty: int }],
        vec![Signature { function: MAKE_POINT, inputs: vec![], output: point }],
    );
    // let p; { p.x; p = make_point() }
    let body = FnBody {
        expressions: vec![
            Expression::Call { function: MAKE_POINT, arguments: vec![] },
            Expression::Place { perm: PermKind::Share, variable: 0 },
            Expression::Field { owner: node(1), name: X },
            Expression::Assignment { variable: 0, value: node(0) },
            Expression::Sequence { first: node(2), second: node(3) },
            Expression::Let { variable: 0, initializer: None, body: node(4) },
        ],
        root: node(5),
        variables: 1,
        parameters: vec![],
        output: unit,
    };
    let checked = base_type_check(w.tables, &decls, THIS_FN, &body);
    assert_eq!(checked.results.error_count(), 0);
    assert_eq!(checked.results.ty(node(1)), point);
    assert_eq!(checked.results.ty(node(2)), int);
    assert_eq!(checked.results.entity(node(2)), Some(POINT_X));
    assert_eq!(checked.results.ty(node(5)), unit);
}

#[test]
fn a_type_that_is_never_resolved_is_the_sentinel() {
    let mut w = world();
    let unit = w.named(UNIT);
    // let p; p.x  -- nothing ever says what p is
    let body = FnBody {
        expressions: vec![
            Expression::Place { perm: PermKind::Share, variable: 0 },
            Expression::Field { owner: node(0), name: X },
            Expression::Unit,
            Expression::Sequence { first: node(1), second: node(2) },
            Expression::Let { variable: 0, initializer: None, body: node(3) },
        ],
        root: node(4),
        variables: 1,
        parameters: vec![],
        output: unit,
    };
    let checked = base_type_check(w.tables, &declarations(vec![], vec![]), THIS_FN, &body);
    assert_eq!(checked.results.error_count(), 0);
    assert_eq!(checked.results.ty(node(0)).base, checked.primitives.error);
    assert_eq!(checked.results.ty(node(1)).base, checked.primitives.error);
    assert_eq!(checked.results.ty(node(4)), unit);
}

#[test]
fn a_field_type_has_the_generic_arguments_of_its_owner() {
    let mut w = world();
    let int = w.named(INT);
    let t = w.parameter(0);
    let box_of_int = w.named_with(BOX, vec![int]);
    let decls = declarations(
        vec![FieldDeclaration { owner: BOX, name: VALUE, entity: BOX_VALUE, ty: t }],
        vec![Signature { function: MAKE_BOX, inputs: vec![], output: box_of_int }],
    );
    let body = FnBody {
        expressions: vec![
            Expression::Call { function: MAKE_BOX, arguments: vec![] },
            Expression::Field { owner: node(0), name: VALUE },
        ],
        root: node(1),
        variables: 0,
        parameters: vec![],
        output: int,
    };
    let checked = base_type_check(w.tables, &decls, THIS_FN, &body);
    assert_eq!(checked.results.error_count(), 0);
    assert_eq!(checked.results.ty(node(1)), int);
    assert_eq!(checked.results.entity(node(1)), Some(BOX_VALUE));
}

#[test]
fn unknown_fields_functions_and_variables_are_errors() {
    let mut w = world();
    let unit = w.named(UNIT);
    let point = w.named(POINT);
    let decls = declarations(
        vec![],
        vec![Signature { function: MAKE_POINT, inputs: vec![], output: point }],
    );
    let body = FnBody {
        expressions: vec![
            Expression::Call { function: MAKE_POINT, arguments: vec![] },
            Expression::Field { owner: node(0), name: X },
            Expression::Call { function: MAKE_BOX, arguments: vec![] },
            Expression::Place { perm: PermKind::Share, variable: 1 },
            Expression::Call { function: MAKE_POINT, arguments: vec![node(3)] },
            Expression::Unit,
            Expression::Sequence { first: node(4), second: node(5) },
            Expression::Sequence { first: node(2), second: node(6) },
            Expression::Sequence { first: node(1), second: node(7) },
        ],
        root: node(8),
        variables: 2,
        parameters: vec![],
        output: unit,
    };
    let checked = base_type_check(w.tables, &decls, THIS_FN, &body);
    let errors: Vec<u32> =
        (0..checked.results.error_count()).map(|i| checked.results.error(i).location.index).collect();
    // no field x, no function make_box, variable 1 has no type, one argument too many
    assert_eq!(errors, vec![1, 2, 3, 4]);
    assert_eq!(checked.results.ty(node(1)).base, checked.primitives.error);
    assert_eq!(checked.results.ty(node(2)).base, checked.primitives.error);
    assert_eq!(checked.results.ty(node(3)).base, checked.primitives.error);
    assert_eq!(checked.results.ty(node(4)), point);
}

#[test]
fn arguments_must_be_assignable_to_the_parameters() {
    let mut w = world();
    let int = w.named(INT);
    let boolean = w.named(BOOLEAN);
    let decls = declarations(
        vec![],
        vec![Signature { function: MAKE_POINT, inputs: vec![int, boolean], output: int }],
    );
    let body = FnBody {
        expressions: vec![
            Expression::Literal { kind: LiteralKind::Int },
            Expression::Literal { kind: LiteralKind::Uint },
            Expression::Call { function: MAKE_POINT, arguments: vec![node(0), node(1)] },
        ],
        root: node(2),
        variables: 0,
        parameters: vec![],
        output: int,
    };
    let checked = base_type_check(w.tables, &decls, THIS_FN, &body);
    assert_eq!(checked.results.error_count(), 1);
    assert_eq!(checked.results.error(0), Error { location: node(1) });
    assert_eq!(checked.results.ty(node(2)), int);
    assert_eq!(checked.results.ty(node(1)).base, checked.primitives.unsigned);
}

#[test]
fn nodes_that_the_root_does_not_reach_are_left_alone() {
    let mut w = world();
    let boolean = w.named(BOOLEAN);
    let body = FnBody {
        expressions: vec![
            Expression::Literal { kind: LiteralKind::Int },
            Expression::Literal { kind: LiteralKind::Bool },
        ],
        root: node(1),
        variables: 0,
        parameters: vec![],
        output: boolean,
    };
    let checked = base_type_check(w.tables, &declarations(vec![], vec![]), THIS_FN, &body);
    assert_eq!(checked.results.get_ty(node(0)), None);
    assert_eq!(checked.results.get_ty(node(1)), Some(boolean));
}

#[test]
fn full_inference_collects_edges_and_infers_kinds() {
    let mut w = world();
    let own = w.tables.intern_perm(PermData::Known(PermKind::Own));
    let int_base = w.named(INT).base;
    let int = Ty { perm: own, base: int_base };
    // if true { 1 } else { 2 }: the result gets a fresh permission that both arms limit
    let body = FnBody {
        expressions: vec![
            Expression::Literal { kind: LiteralKind::Bool },
            Expression::Literal { kind: LiteralKind::Int },
            Expression::Literal { kind: LiteralKind::Int },
            Expression::If { condition: node(0), if_true: node(1), if_false: node(2) },
        ],
        root: node(3),
        variables: 0,
        parameters: vec![],
        output: int,
    };
    let mut checked = full_type_check(w.tables, &declarations(vec![], vec![]), THIS_FN, &body);
    assert_eq!(checked.results.error_count(), 0);
    assert_eq!(checked.results.ty(node(1)), int);
    let result = checked.results.ty(node(3));
    assert_eq!(result.base, int_base);
    assert_eq!(checked.tables.untern_perm(result.perm), PermData::Inferred(PermVar { index: 0 }));
    assert_eq!(
        checked.perm_less,
        vec![
            (own, own, node(0)),
            (own, own, node(0)),
            (own, result.perm, node(3)),
            (own, result.perm, node(3)),
            (result.perm, own, node(3)),
        ]
    );
    assert_eq!(checked.perm_less_if, vec![]);
    let kinds = infer_kinds(&mut checked).unwrap();
    assert_eq!(kinds.len(), 1);
    assert_eq!(kinds.get(PermVar { index: 0 }), Some(PermKind::Own));
}

#[test]
fn a_field_read_through_an_owner_leaves_a_guarded_edge() {
    let mut w = world();
    let own = w.tables.intern_perm(PermData::Known(PermKind::Own));
    let int = w.named(INT);
    let point = w.named(POINT);
    let decls = declarations(
        vec![FieldDeclaration { owner: POINT, name: X, entity: POINT_X, ty: int }],
        vec![Signature { function: MAKE_POINT, inputs: vec![], output: Ty { perm: own, base: point.base } }],
    );
    let body = FnBody {
        expressions: vec![
            Expression::Call { function: MAKE_POINT, arguments: vec![] },
            Expression::Field { owner: node(0), name: X },
        ],
        root: node(1),
        variables: 0,
        parameters: vec![],
        output: int,
    };
    let mut checked = full_type_check(w.tables, &decls, THIS_FN, &body);
    assert_eq!(checked.results.error_count(), 0);
    let field = checked.results.ty(node(1));
    assert_eq!(field.base, int.base);
    assert_eq!(
        checked.perm_less,
        vec![(field.perm, int.perm, node(1)), (field.perm, own, node(1)), (field.perm, int.perm, node(1))]
    );
    assert_eq!(checked.perm_less_if, vec![(own, int.perm, field.perm, node(1))]);
    // the owner is owned, so the guard holds; but the field is shared, so nothing flows
    let kinds = infer_kinds(&mut checked).unwrap();
    assert_eq!(kinds.len(), 0);
}

#[test]
fn a_variable_gets_its_type_once() {
    let mut w = world();
    let boolean = w.named(BOOLEAN);
    let int = w.named(INT);
    // let x = 1; let x = true; x
    let body = FnBody {
        expressions: vec![
            Expression::Literal { kind: LiteralKind::Int },
            Expression::Literal { kind: LiteralKind::Bool },
            Expression::Place { perm: PermKind::Share, variable: 0 },
            Expression::Let { variable: 0, initializer: Some(node(1)), body: node(2) },
            Expression::Let { variable: 0, initializer: Some(node(0)), body: node(3) },
        ],
        root: node(4),
        variables: 1,
        parameters: vec![],
        output: int,
    };
    let checked = base_type_check(w.tables, &declarations(vec![], vec![]), THIS_FN, &body);
    assert_eq!(checked.results.error_count(), 1);
    assert_eq!(checked.results.error(0), Error { location: node(3) });
    assert_eq!(checked.results.ty(node(2)), int);
    assert_eq!(checked.variables, vec![Some(int)]);
    assert_eq!(checked.results.ty(node(1)), boolean);
}

#[test]
fn a_call_with_too_few_arguments_is_one_error_at_the_call() {
    let mut w = world();
    let int = w.named(INT);
    let boolean = w.named(BOOLEAN);
    let decls = declarations(
        vec![],
        vec![Signature { function: MAKE_POINT, inputs: vec![int, boolean], output: int }],
    );
    let body = FnBody {
        expressions: vec![
            Expression::Literal { kind: LiteralKind::Uint },
            Expression::Call { function: MAKE_POINT, arguments: vec![node(0)] },
        ],
        root: node(1),
        variables: 0,
        parameters: vec![],
        output: int,
    };
    let checked = base_type_check(w.tables, &decls, THIS_FN, &body);
    assert_eq!(checked.results.error_count(), 1);
    assert_eq!(checked.results.error(0), Error { location: node(1) });
    assert_eq!(checked.results.ty(node(1)), int);
    assert_eq!(checked.results.ty(node(0)).base, checked.primitives.unsigned);
}

#[test]
fn a_let_gives_its_variable_the_type_of_the_initializer() {
    let mut w = world();
    let boolean = w.named(BOOLEAN);
    // let x = true; x
    let body = FnBody {
        expressions: vec![
            Expression::Literal { kind: LiteralKind::Bool },
            Expression::Place { perm: PermKind::Share, variable: 0 },
            Expression::Let { variable: 0, initializer: Some(node(0)), body: node(1) },
        ],
        root: node(2),
        variables: 1,
        parameters: vec![],
        output: boolean,
    };
    let checked = base_type_check(w.tables, &declarations(vec![], vec![]), THIS_FN, &body);
    assert_eq!(checked.results.error_count(), 0);
    assert_eq!(checked.variables, vec![Some(checked.results.ty(node(0)))]);
    assert_eq!(checked.results.ty(node(1)).base, boolean.base);
    assert_eq!(checked.results.ty(node(2)), checked.results.ty(node(1)));
}
