//! The body of a function as the type checker reads it: expressions in an
//! arena, each addressed by the index of its node, every expression
//! standing behind the expressions that it is built from.

use crate::intern::InternersView;
use crate::ty::{Entity, Node, PermKind, Ty};
use vstd::prelude::*;

verus! {

/// The kinds of literal.
#[derive(Clone, Copy, Debug, PartialEq, Eq, Structural, Hash)]
pub enum LiteralKind {
    Bool,
    Int,
    Uint,
}

/// One expression.
#[derive(Clone, Debug, PartialEq, Eq, Hash)]
pub enum Expression {
    /// A literal such as `true` or `22`.
    Literal { kind: LiteralKind },
    /// The unit value `()`.
    Unit,
    /// A read of the local variable `variable` with the permission `perm`.
    Place { perm: PermKind, variable: u32 },
    /// `let variable = initializer; body`
    Let { variable: u32, initializer: Option<Node>, body: Node },
    /// `variable = value`
    Assignment { variable: u32, value: Node },
    /// `first; second`
    Sequence { first: Node, second: Node },
    /// `if condition { if_true } else { if_false }`
    If { condition: Node, if_true: Node, if_false: Node },
    /// `owner.name`
    Field { owner: Node, name: u32 },
    /// `function(arguments)`
    Call { function: Entity, arguments: Vec<Node> },
    /// A place where an earlier stage has reported an error already.
    Error,
}

/// The body of one function.
pub struct FnBody {
    /// The expressions; a node is an index into them.
    pub expressions: Vec<Expression>,
    /// The expression that the body evaluates to.
    pub root: Node,
    /// The number of local variables; the parameters come first.
    pub variables: u32,
    /// The declared types of the parameters.
    pub parameters: Vec<Ty>,
    /// The declared type of the result.
    pub output: Ty,
}

/// A declared field.
#[derive(Clone, Copy, Debug, PartialEq, Eq, Structural, Hash)]
pub struct FieldDeclaration {
    /// The struct that has the field.
    pub owner: Entity,
    /// The name of the field.
    pub name: u32,
    /// The field itself.
    pub entity: Entity,
    /// The declared type, in which a placeholder stands for a generic
    /// parameter of the struct.
    pub ty: Ty,
}

/// The signature of a declared function.
pub struct Signature {
    pub function: Entity,
    pub inputs: Vec<Ty>,
    pub output: Ty,
}

/// What the checker has to know of the declarations around the function.
pub struct Declarations {
    /// The built-in types.
    pub boolean: Entity,
    pub integer: Entity,
    pub unsigned: Entity,
    pub unit: Entity,
    pub fields: Vec<FieldDeclaration>,
    pub signatures: Vec<Signature>,
}

/// The nodes that an expression is built from, in the order in which they
/// are checked.
pub open spec fn children(e: Expression) -> Seq<Node> {
    match e {
        Expression::Literal { .. } => seq![],
        Expression::Unit => seq![],
        Expression::Place { .. } => seq![],
        Expression::Let { initializer, body, .. } => match initializer {
            Some(init) => seq![init, body],
            None => seq![body],
        },
        Expression::Assignment { value, .. } => seq![value],
        Expression::Sequence { first, second } => seq![first, second],
        Expression::If { condition, if_true, if_false } => seq![condition, if_true, if_false],
        Expression::Field { owner, .. } => seq![owner],
        Expression::Call { arguments, .. } => arguments@,
        Expression::Error => seq![],
    }
}

/// The local variable that an expression names, if it names one.
pub open spec fn named_variable(e: Expression) -> Option<u32> {
    match e {
        Expression::Place { variable, .. } => Some(variable),
        Expression::Let { variable, .. } => Some(variable),
        Expression::Assignment { variable, .. } => Some(variable),
        _ => None,
    }
}

impl FnBody {
    /// The number of nodes.
    pub open spec fn len(&self) -> nat {
        self.expressions@.len()
    }

    /// Every expression stands behind the expressions it is built from,
    /// names variables of the body only, and the root is a node.
    pub open spec fn wf(&self) -> bool {
        &&& self.expressions@.len() <= u32::MAX
        &&& self.root.index < self.expressions@.len()
        &&& self.parameters@.len() <= self.variables
        &&& forall|n: int, k: int|
            0 <= n < self.expressions@.len() && 0 <= k < children(self.expressions@[n]).len()
                ==> (#[trigger] children(self.expressions@[n])[k]).index < n
        &&& forall|n: int|
            0 <= n < self.expressions@.len() ==> (#[trigger] named_variable(
                self.expressions@[n],
            ) matches Some(v) ==> v < self.variables)
    }

    /// Whether `to` is `from` or one of the nodes that `from` is built
    /// from, directly or not.
    pub open spec fn reaches(&self, from: int, to: int) -> bool
        decreases from,
    {
        from == to || (0 <= from < self.expressions@.len() && exists|k: int|
            0 <= k < children(self.expressions@[from]).len() && 0 <= (#[trigger] children(
                self.expressions@[from],
            )[k]).index < from && self.reaches(
                children(self.expressions@[from])[k].index as int,
                to,
            ))
    }

    /// Whether `types` holds a type for every node that its typed nodes
    /// are built from.
    pub open spec fn covers(&self, types: Map<u32, Ty>) -> bool {
        forall|n: int, k: int|
            0 <= n < self.expressions@.len() && types.contains_key(n as u32) && 0 <= k < children(
                self.expressions@[n],
            ).len() ==> types.contains_key((#[trigger] children(self.expressions@[n])[k]).index)
    }

    /// Where the types cover what their nodes are built from, a typed node
    /// has everything typed that it reaches.
    pub proof fn lemma_reached_is_typed(&self, types: Map<u32, Ty>, from: int, to: int)
        requires
            self.wf(),
            self.covers(types),
            0 <= from < self.len(),
            types.contains_key(from as u32),
            self.reaches(from, to),
        ensures
            0 <= to <= from,
            types.contains_key(to as u32),
        decreases from,
    {
        if from != to {
            let k = choose|k: int|
                0 <= k < children(self.expressions@[from]).len() && 0 <= (#[trigger] children(
                    self.expressions@[from],
                )[k]).index < from && self.reaches(
                    children(self.expressions@[from])[k].index as int,
                    to,
                );
            let c = children(self.expressions@[from])[k];
            self.lemma_reached_is_typed(types, c.index as int, to);
        }
    }
}

impl Declarations {
    /// Every declared type is a type of `tables`.
    pub open spec fn wf(&self, tables: InternersView) -> bool {
        &&& forall|i: int|
            0 <= i < self.fields@.len() ==> tables.has_ty((#[trigger] self.fields@[i]).ty)
        &&& forall|i: int, k: int|
            0 <= i < self.signatures@.len() && 0 <= k < self.signatures@[i].inputs@.len()
                ==> tables.has_ty(#[trigger] self.signatures@[i].inputs@[k])
        &&& forall|i: int|
            0 <= i < self.signatures@.len() ==> tables.has_ty(
                (#[trigger] self.signatures@[i]).output,
            )
    }

    /// No declared result type and no declared parameter type is an
    /// inference variable of `tables`.
    pub open spec fn settled_in(&self, tables: InternersView) -> bool {
        &&& forall|i: int|
            0 <= i < self.signatures@.len() ==> !(tables.bases[(
            #[trigger] self.signatures@[i]).output.base.index as int] is Inferred)
        &&& forall|i: int, k: int|
            0 <= i < self.signatures@.len() && 0 <= k < self.signatures@[i].inputs@.len() ==> !(
            tables.bases[(#[trigger] self.signatures@[i].inputs@[k]).base.index as int]
                is Inferred)
    }

    /// The first declaration, from position `from` on, of a field `name`
    /// of `owner`.
    pub open spec fn field_from(&self, owner: Entity, name: u32, from: nat) -> Option<
        FieldDeclaration,
    >
        decreases self.fields@.len() - from,
    {
        if from >= self.fields@.len() {
            None
        } else if self.fields@[from as int].owner == owner && self.fields@[from as int].name
            == name {
            Some(self.fields@[from as int])
        } else {
            self.field_from(owner, name, from + 1)
        }
    }

    /// The declaration of the field `name` of `owner`: the first one, where
    /// there are several.
    pub open spec fn field_of(&self, owner: Entity, name: u32) -> Option<FieldDeclaration> {
        self.field_from(owner, name, 0)
    }

    /// The position of the first signature of `function` from position
    /// `from` on.
    pub open spec fn signature_from(&self, function: Entity, from: nat) -> Option<int>
        decreases self.signatures@.len() - from,
    {
        if from >= self.signatures@.len() {
            None
        } else if self.signatures@[from as int].function == function {
            Some(from as int)
        } else {
            self.signature_from(function, from + 1)
        }
    }

    /// The position of the signature of `function`: the first one, where
    /// there are several.
    pub open spec fn signature_of(&self, function: Entity) -> Option<int> {
        self.signature_from(function, 0)
    }

    /// The result type of `function`, if it has a signature.
    pub open spec fn output_of(&self, function: Entity) -> Option<Ty> {
        match self.signature_of(function) {
            Some(i) => Some(self.signatures@[i].output),
            None => None,
        }
    }

    /// Where a declaration is found, it is one of the declarations.
    pub proof fn lemma_found(&self, owner: Entity, name: u32, function: Entity, from: nat)
        ensures
            self.field_from(owner, name, from) matches Some(field) ==> self.fields@.contains(field)
                && field.owner == owner && field.name == name,
            self.signature_from(function, from) matches Some(i) ==> 0 <= i < self.signatures@.len()
                && self.signatures@[i].function == function,
        decreases self.fields@.len() + self.signatures@.len() - from,
    {
        if from < self.fields@.len() || from < self.signatures@.len() {
            self.lemma_found(owner, name, function, from + 1);
        }
    }

    /// The first declaration of a field `name` of `owner`, if there is one.
    pub fn find_field(&self, owner: Entity, name: u32) -> (found: Option<FieldDeclaration>)
        ensures
            found == self.field_of(owner, name),
            found matches Some(field) ==> field.owner == owner && field.name == name
                && self.fields@.contains(field),
    {
        proof {
            self.lemma_found(owner, name, owner, 0);
        }
        let mut i: usize = 0;
        while i < self.fields.len()
            invariant
                i <= self.fields.len(),
                self.field_from(owner, name, i as nat) == self.field_of(owner, name),
            decreases self.fields.len() - i,
        {
            let field = self.fields[i];
            if field.owner == owner && field.name == name {
                return Some(field);
            }
            i = i + 1;
        }
        None
    }

    /// The position of the first signature of `function`, if there is one.
    pub fn find_signature(&self, function: Entity) -> (found: Option<usize>)
        ensures
            found matches Some(i) ==> self.signature_of(function) == Some(i as int) && i
                < self.signatures@.len(),
            found is None ==> self.signature_of(function) is None,
    {
        let mut i: usize = 0;
        while i < self.signatures.len()
            invariant
                i <= self.signatures.len(),
                self.signature_from(function, i as nat) == self.signature_of(function),
            decreases self.signatures.len() - i,
        {
            if self.signatures[i].function == function {
                return Some(i);
            }
            i = i + 1;
        }
        None
    }
}

} // verus!
