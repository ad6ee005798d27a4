//! The syntax tree that the parser hands to the later stages.

use vstd::prelude::*;

verus! {

/// The key of an interned string.
#[derive(Debug, Clone, Copy, PartialEq, Eq, PartialOrd, Ord, Structural, Hash)]
pub struct StringId {
    pub index: u32,
}

/// Where a piece of syntax stands in its file.
#[derive(Debug, Clone, Copy, PartialEq, Eq, PartialOrd, Ord, Structural, Hash)]
pub enum Span {
    /// The bytes from `start` up to `end`.
    Real { start: u32, end: u32 },
    /// Syntax that no source text stands for.
    Synthetic,
    /// The end of the file.
    Eof,
}

/// A value together with the place where it was written.
#[derive(Debug, Clone, Copy, PartialEq, Eq, PartialOrd, Ord, Hash)]
pub struct Spanned<T> {
    pub node: T,
    pub span: Span,
}

/// A name with the place where it was written.
pub type Identifier = Spanned<StringId>;

/// The text of one input file: the interned text, and the offset in the
/// whole input at which it starts.
#[derive(Clone, Copy, Debug, PartialEq, Eq, Structural)]
pub struct InputText {
    pub text: StringId,
    pub start_offset: u32,
}

/// Syntax that knows where it stands.
pub trait HasSpan {
    /// The span, for contracts.
    spec fn span_of(&self) -> Span;

    /// The span of the whole construct.
    fn span(&self) -> (span: Span)
        ensures
            span == self.span_of(),
    ;
}

/// An item of a module.
#[derive(Debug, PartialEq, Eq, PartialOrd, Ord, Hash)]
pub enum Item {
    Struct(Struct),
    Def(Def),
}

/// What a block may hold.
#[derive(Debug, PartialEq, Eq, PartialOrd, Ord, Hash)]
pub enum BlockItem {
    Item(Item),
    Decl(Declaration),
    Expr(Expression),
}

/// A declaration inside a block.
#[derive(Debug, Clone, Copy, PartialEq, Eq, PartialOrd, Ord, Hash)]
pub enum Declaration {
    Let,
}

/// For a field of a struct that is being built: the field with its value
/// written out, or the name alone.
#[derive(Debug, Clone, PartialEq, Eq, PartialOrd, Ord, Hash)]
pub enum ConstructField {
    Longhand(Field),
    Shorthand(Identifier),
}

/// How a value is passed or held, as written.
#[derive(Debug, Clone, Copy, PartialEq, Eq, PartialOrd, Ord, Structural, Hash)]
pub enum Mode {
    Owned,
    Shared,
    Borrowed,
}

/// A pattern; none can be written yet.
pub struct Pattern {}

/// A statement. The empty statement is the only one so far.
pub enum Statement {
    Empty,
}

/// An expression.
#[derive(Debug, PartialEq, Eq, PartialOrd, Ord, Hash)]
pub enum Expression {
    Block(Block),
    ConstructStruct(ConstructStruct),
}

/// A `let`: the pattern that is bound, its type if written, and its
/// initial value if any.
pub struct Let {
    pub pattern: Pattern,
    pub ty: Option<Type>,
    pub init: Option<Expression>,
}

/// A conditional.
pub enum If {
    If(Box<Expression>, Block, Option<ChainedElse>),
    IfLet(Pattern, Box<Expression>, Block, Option<ChainedElse>),
}

/// What follows `else`.
pub enum ChainedElse {
    Block(Block),
    If(Box<If>),
}

/// A source file: the items it declares.
#[derive(Debug, PartialEq, Eq, PartialOrd, Ord, Hash)]
pub struct Module {
    items: Vec<Item>,
}

impl Module {
    /// Builds the value from its parts.
    pub fn new(items: Vec<Item>) -> (made: Module)
        ensures
            *made.items() == items,
    {
        Module { items }
    }

    /// The part `items`, for contracts.
    pub closed spec fn spec_items(&self) -> &Vec<Item> {
        &self.items
    }

    /// The part `items`.
    #[verifier::when_used_as_spec(spec_items)]
    pub fn items(&self) -> (part: &Vec<Item>)
        ensures
            part == self.spec_items(),
    {
        &self.items
    }

}

/// A struct declaration.
#[derive(Debug, Clone, PartialEq, Eq, PartialOrd, Ord, Hash)]
pub struct Struct {
    name: Spanned<StringId>,
    fields: Vec<Field>,
    span: Span,
}

impl Struct {
    /// Builds the value from its parts.
    pub fn new(name: Spanned<StringId>, fields: Vec<Field>, span: Span) -> (made: Struct)
        ensures
            *made.name() == name,
            *made.fields() == fields,
            made.span_of() == span,
    {
        Struct { name, fields, span }
    }

    /// The part `name`, for contracts.
    pub closed spec fn spec_name(&self) -> &Spanned<StringId> {
        &self.name
    }

    /// The part `name`.
    #[verifier::when_used_as_spec(spec_name)]
    pub fn name(&self) -> (part: &Spanned<StringId>)
        ensures
            part == self.spec_name(),
    {
        &self.name
    }

    /// The part `fields`, for contracts.
    pub closed spec fn spec_fields(&self) -> &Vec<Field> {
        &self.fields
    }

    /// The part `fields`.
    #[verifier::when_used_as_spec(spec_fields)]
    pub fn fields(&self) -> (part: &Vec<Field>)
        ensures
            part == self.spec_fields(),
    {
        &self.fields
    }

}

/// A field of a struct or a parameter of a function: a name and its type.
#[derive(Debug, Clone, PartialEq, Eq, PartialOrd, Ord, Hash)]
pub struct Field {
    name: Identifier,
    ty: Spanned<Type>,
    span: Span,
}

impl Field {
    /// Builds the value from its parts.
    pub fn new(name: Identifier, ty: Spanned<Type>, span: Span) -> (made: Field)
        ensures
            *made.name() == name,
            *made.ty() == ty,
            made.span() == span,
    {
        Field { name, ty, span }
    }

    /// The part `name`, for contracts.
    pub closed spec fn spec_name(&self) -> &Identifier {
        &self.name
    }

    /// The part `name`.
    #[verifier::when_used_as_spec(spec_name)]
    pub fn name(&self) -> (part: &Identifier)
        ensures
            part == self.spec_name(),
    {
        &self.name
    }

    /// The part `ty`, for contracts.
    pub closed spec fn spec_ty(&self) -> &Spanned<Type> {
        &self.ty
    }

    /// The part `ty`.
    #[verifier::when_used_as_spec(spec_ty)]
    pub fn ty(&self) -> (part: &Spanned<Type>)
        ensures
            part == self.spec_ty(),
    {
        &self.ty
    }

    /// The part `span`, for contracts.
    pub closed spec fn spec_span(&self) -> Span {
        self.span
    }

    /// The part `span`.
    #[verifier::when_used_as_spec(spec_span)]
    pub fn span(&self) -> (part: Span)
        ensures
            part == self.spec_span(),
    {
        self.span
    }

}

/// A type as written: an optional mode and the name of the type.
#[derive(Debug, Clone, PartialEq, Eq, PartialOrd, Ord, Hash)]
pub struct Type {
    mode: Option<Spanned<Mode>>,
    name: Spanned<StringId>,
}

impl Type {
    /// Builds the value from its parts.
    pub fn new(mode: Option<Spanned<Mode>>, name: Spanned<StringId>) -> (made: Type)
        ensures
            *made.mode() == mode,
            *made.name() == name,
    {
        Type { mode, name }
    }

    /// The part `mode`, for contracts.
    pub closed spec fn spec_mode(&self) -> &Option<Spanned<Mode>> {
        &self.mode
    }

    /// The part `mode`.
    #[verifier::when_used_as_spec(spec_mode)]
    pub fn mode(&self) -> (part: &Option<Spanned<Mode>>)
        ensures
            part == self.spec_mode(),
    {
        &self.mode
    }

    /// The part `name`, for contracts.
    pub closed spec fn spec_name(&self) -> &Spanned<StringId> {
        &self.name
    }

    /// The part `name`.
    #[verifier::when_used_as_spec(spec_name)]
    pub fn name(&self) -> (part: &Spanned<StringId>)
        ensures
            part == self.spec_name(),
    {
        &self.name
    }

}

/// A path of identifiers.
#[derive(Debug, Clone, PartialEq, Eq, PartialOrd, Ord, Hash)]
pub struct Path {
    components: Vec<Identifier>,
}

impl Path {
    /// Builds the value from its parts.
    pub fn new(components: Vec<Identifier>) -> (made: Path)
        ensures
            *made.components() == components,
    {
        Path { components }
    }

    /// The part `components`, for contracts.
    pub closed spec fn spec_components(&self) -> &Vec<Identifier> {
        &self.components
    }

    /// The part `components`.
    #[verifier::when_used_as_spec(spec_components)]
    pub fn components(&self) -> (part: &Vec<Identifier>)
        ensures
            part == self.spec_components(),
    {
        &self.components
    }

}

/// A function definition.
#[derive(Debug, PartialEq, Eq, PartialOrd, Ord, Hash)]
pub struct Def {
    name: Identifier,
    parameters: Vec<Field>,
    ret: Option<Spanned<Type>>,
    body: Block,
    span: Span,
}

impl Def {
    /// Builds the value from its parts.
    pub fn new(name: Identifier, parameters: Vec<Field>, ret: Option<Spanned<Type>>, body: Block,
        span: Span) -> (made: Def)
        ensures
            *made.name() == name,
            *made.parameters() == parameters,
            *made.ret() == ret,
            *made.body() == body,
            made.span() == span,
    {
        Def { name, parameters, ret, body, span }
    }

    /// The part `name`, for contracts.
    pub closed spec fn spec_name(&self) -> &Identifier {
        &self.name
    }

    /// The part `name`.
    #[verifier::when_used_as_spec(spec_name)]
    pub fn name(&self) -> (part: &Identifier)
        ensures
            part == self.spec_name(),
    {
        &self.name
    }

    /// The part `parameters`, for contracts.
    pub closed spec fn spec_parameters(&self) -> &Vec<Field> {
        &self.parameters
    }

    /// The part `parameters`.
    #[verifier::when_used_as_spec(spec_parameters)]
    pub fn parameters(&self) -> (part: &Vec<Field>)
        ensures
            part == self.spec_parameters(),
    {
        &self.parameters
    }

    /// The part `ret`, for contracts.
    pub closed spec fn spec_ret(&self) -> &Option<Spanned<Type>> {
        &self.ret
    }

    /// The part `ret`.
    #[verifier::when_used_as_spec(spec_ret)]
    pub fn ret(&self) -> (part: &Option<Spanned<Type>>)
        ensures
            part == self.spec_ret(),
    {
        &self.ret
    }

    /// The part `body`, for contracts.
    pub closed spec fn spec_body(&self) -> &Block {
        &self.body
    }

    /// The part `body`.
    #[verifier::when_used_as_spec(spec_body)]
    pub fn body(&self) -> (part: &Block)
        ensures
            part == self.spec_body(),
    {
        &self.body
    }

    /// The part `span`, for contracts.
    pub closed spec fn spec_span(&self) -> Span {
        self.span
    }

    /// The part `span`.
    #[verifier::when_used_as_spec(spec_span)]
    pub fn span(&self) -> (part: Span)
        ensures
            part == self.spec_span(),
    {
        self.span
    }

}

/// An expression that builds a struct value.
#[derive(Debug, Clone, PartialEq, Eq, PartialOrd, Ord, Hash)]
pub struct ConstructStruct {
    name: Identifier,
    fields: Vec<ConstructField>,
    span: Span,
}

impl ConstructStruct {
    /// Builds the value from its parts.
    pub fn new(name: Identifier, fields: Vec<ConstructField>, span: Span) -> (made: ConstructStruct)
        ensures
            *made.name() == name,
            *made.fields() == fields,
            made.span() == span,
    {
        ConstructStruct { name, fields, span }
    }

    /// The part `name`, for contracts.
    pub closed spec fn spec_name(&self) -> &Identifier {
        &self.name
    }

    /// The part `name`.
    #[verifier::when_used_as_spec(spec_name)]
    pub fn name(&self) -> (part: &Identifier)
        ensures
            part == self.spec_name(),
    {
        &self.name
    }

    /// The part `fields`, for contracts.
    pub closed spec fn spec_fields(&self) -> &Vec<ConstructField> {
        &self.fields
    }

    /// The part `fields`.
    #[verifier::when_used_as_spec(spec_fields)]
    pub fn fields(&self) -> (part: &Vec<ConstructField>)
        ensures
            part == self.spec_fields(),
    {
        &self.fields
    }

    /// The part `span`, for contracts.
    pub closed spec fn spec_span(&self) -> Span {
        self.span
    }

    /// The part `span`.
    #[verifier::when_used_as_spec(spec_span)]
    pub fn span(&self) -> (part: Span)
        ensures
            part == self.spec_span(),
    {
        self.span
    }

}

/// A block: its items in the order written.
#[derive(Debug, PartialEq, Eq, PartialOrd, Ord, Hash)]
pub struct Block {
    expressions: Vec<BlockItem>,
}

impl Block {
    /// Builds the value from its parts.
    pub fn new(expressions: Vec<BlockItem>) -> (made: Block)
        ensures
            *made.expressions() == expressions,
    {
        Block { expressions }
    }

    /// The part `expressions`, for contracts.
    pub closed spec fn spec_expressions(&self) -> &Vec<BlockItem> {
        &self.expressions
    }

    /// The part `expressions`.
    #[verifier::when_used_as_spec(spec_expressions)]
    pub fn expressions(&self) -> (part: &Vec<BlockItem>)
        ensures
            part == self.spec_expressions(),
    {
        &self.expressions
    }

}

impl HasSpan for Struct {
    closed spec fn span_of(&self) -> Span {
        self.span
    }

    fn span(&self) -> (span: Span) {
        self.span
    }
}

} // verus!
