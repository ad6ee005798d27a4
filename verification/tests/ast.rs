use lark_type_check::ast::{
    Block, BlockItem, ChainedElse, ConstructField, ConstructStruct, Declaration, Def, Expression,
    Field, HasSpan, Identifier, If, Item, Let, Mode, Module, Path, Pattern, Span, Spanned,
    Statement, StringId, Struct, Type,
};

fn span(start: u32, end: u32) -> Span {
    Span::Real { start, end }
}

fn name(index: u32, start: u32) -> Identifier {
    Spanned { node: StringId { index }, span: span(start, start + 1) }
}

fn field(index: u32) -> Field {
    let ty = Type::new(Some(Spanned { node: Mode::Borrowed, span: span(4, 10) }), name(9, 11));
    Field::new(name(index, 0), Spanned { node: ty, span: span(4, 12) }, span(0, 12))
}

#[test]
fn values_are_built_from_their_parts() {
    let point = Struct::new(name(1, 7), vec![field(2), field(3)], span(0, 40));
    assert_eq!(point.name(), &name(1, 7));
    assert_eq!(point.fields().len(), 2);
    assert_eq!(point.fields()[1].name(), &name(3, 0));
    assert_eq!(point.span(), span(0, 40));
    let ty = point.fields()[0].ty();
    assert_eq!(ty.span, span(4, 12));
    assert_eq!(ty.node.name(), &name(9, 11));
    assert_eq!(ty.node.mode(), &Some(Spanned { node: Mode::Borrowed, span: span(4, 10) }));
    assert_eq!(point.fields()[0].span(), span(0, 12));

    let construct = ConstructStruct::new(
        name(1, 50),
        vec![ConstructField::Longhand(field(2)), ConstructField::Shorthand(name(3, 60))],
        Span::Synthetic,
    );
    assert_eq!(construct.fields()[1], ConstructField::Shorthand(name(3, 60)));
    assert_eq!(construct.span(), Span::Synthetic);
    let block = Block::new(vec![
        BlockItem::Decl(Declaration::Let),
        BlockItem::Expr(Expression::ConstructStruct(construct)),
    ]);
    assert_eq!(block.expressions().len(), 2);
    assert_eq!(block.expressions()[0], BlockItem::Decl(Declaration::Let));
    let def = Def::new(name(4, 70), vec![field(5)], None, block, Span::Eof);
    assert_eq!(def.name(), &name(4, 70));
    assert_eq!(def.parameters().len(), 1);
    assert_eq!(def.ret(), &None);
    assert_eq!(def.body().expressions().len(), 2);
    assert_eq!(def.span(), Span::Eof);
    let module = Module::new(vec![Item::Struct(point), Item::Def(def)]);
    assert_eq!(module.items().len(), 2);
    assert!(matches!(module.items()[0], Item::Struct(_)));
    let path = Path::new(vec![name(1, 0), name(2, 2)]);
    assert_eq!(path.components(), &vec![name(1, 0), name(2, 2)]);
}

#[test]
fn conditionals_and_lets_nest() {
    let empty = || Block::new(vec![]);
    let inner = If::If(Box::new(Expression::Block(empty())), empty(), None);
    let outer = If::IfLet(
        Pattern {},
        Box::new(Expression::Block(empty())),
        empty(),
        Some(ChainedElse::If(Box::new(inner))),
    );
    match outer {
        If::IfLet(_, _, then, Some(ChainedElse::If(chained))) => {
            assert_eq!(then.expressions().len(), 0);
            assert!(matches!(*chained, If::If(_, _, None)));
        }
        _ => panic!("the conditional lost its shape"),
    }
    let bound = Let { pattern: Pattern {}, ty: None, init: Some(Expression::Block(empty())) };
    assert!(bound.ty.is_none());
    assert!(bound.init.is_some());
    assert!(matches!(Statement::Empty, Statement::Empty));
    assert!(matches!(ChainedElse::Block(empty()), ChainedElse::Block(_)));
}
