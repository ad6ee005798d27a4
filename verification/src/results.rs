//! What a type-check session hands back.

use crate::ty::{Entity, Node, Ty};
use std::collections::BTreeMap;
use vstd::prelude::*;

verus! {

/// A type-check error: the place in the body where it occurred.
#[derive(Clone, Copy, Debug, PartialEq, Eq, Structural, Hash)]
pub struct Error {
    /// The expression or identifier where the error occurred.
    pub location: Node,
}

/// The types, the resolved entities and the errors of one function body.
#[derive(Clone, Debug, PartialEq, Eq, Hash)]
pub struct TypeCheckResults {
    /// The type computed for each expression, by the index of its node.
    types: BTreeMap<u32, Ty>,
    /// For identifiers that are resolved through a type (the field in
    /// `foo.bar`), the entity that they were resolved to, by the index of
    /// their node.
    entities: BTreeMap<u32, Entity>,
    /// The errors met on the way, oldest first.
    errors: Vec<Error>,
}

impl TypeCheckResults {
    /// The type recorded for each node.
    pub closed spec fn types(&self) -> Map<u32, Ty> {
        self.types@
    }

    /// The entity recorded for each identifier.
    pub closed spec fn entities(&self) -> Map<u32, Entity> {
        self.entities@
    }

    /// The errors, oldest first.
    pub closed spec fn errors(&self) -> Seq<Error> {
        self.errors@
    }

    /// Results without any entry.
    pub fn new() -> (results: TypeCheckResults)
        ensures
            results.types() == Map::<u32, Ty>::empty(),
            results.entities() == Map::<u32, Entity>::empty(),
            results.errors() == Seq::<Error>::empty(),
    {
        TypeCheckResults { types: BTreeMap::new(), entities: BTreeMap::new(), errors: Vec::new() }
    }

    /// Records the entity that the identifier `index` was resolved to.
    pub fn record_entity(&mut self, index: Node, entity: Entity)
        ensures
            final(self).entities() == old(self).entities().insert(index.index, entity),
            final(self).types() == old(self).types(),
            final(self).errors() == old(self).errors(),
    {
        self.entities.insert(index.index, entity);
    }

    /// Records the type of the node `index`. A node gets its type once.
    pub fn record_ty(&mut self, index: Node, ty: Ty)
        requires
            !old(self).types().contains_key(index.index),
        ensures
            final(self).types() == old(self).types().insert(index.index, ty),
            final(self).entities() == old(self).entities(),
            final(self).errors() == old(self).errors(),
    {
        self.types.insert(index.index, ty);
    }

    /// Replaces the type of the node `index`, which has one, by the type
    /// that it has turned out to be. Only the end of a session does this.
    pub(crate) fn settle_ty(&mut self, index: Node, ty: Ty)
        requires
            old(self).types().contains_key(index.index),
        ensures
            final(self).types() == old(self).types().insert(index.index, ty),
            final(self).entities() == old(self).entities(),
            final(self).errors() == old(self).errors(),
    {
        self.types.insert(index.index, ty);
    }

    /// Records that an error occurred at `location`.
    pub fn record_error(&mut self, location: Node)
        ensures
            final(self).errors() == old(self).errors().push(Error { location }),
            final(self).types() == old(self).types(),
            final(self).entities() == old(self).entities(),
    {
        self.errors.push(Error { location });
    }

    /// The type stored for the node `index`, which must have one.
    pub fn ty(&self, index: Node) -> (ty: Ty)
        requires
            self.types().contains_key(index.index),
        ensures
            ty == self.types()[index.index],
    {
        *self.types.get(&index.index).unwrap()
    }

    /// The type stored for the node `index`, if it has one.
    pub fn get_ty(&self, index: Node) -> (ty: Option<Ty>)
        ensures
            ty == (if self.types().contains_key(index.index) {
                Some(self.types()[index.index])
            } else {
                None
            }),
    {
        match self.types.get(&index.index) {
            Some(ty) => Some(*ty),
            None => None,
        }
    }

    /// The entity stored for the identifier `index`, if it has one.
    pub fn entity(&self, index: Node) -> (entity: Option<Entity>)
        ensures
            entity == (if self.entities().contains_key(index.index) {
                Some(self.entities()[index.index])
            } else {
                None
            }),
    {
        match self.entities.get(&index.index) {
            Some(entity) => Some(*entity),
            None => None,
        }
    }

    /// The number of errors.
    pub fn error_count(&self) -> (n: usize)
        ensures
            n == self.errors().len(),
    {
        self.errors.len()
    }

    /// The error at position `i`, oldest first.
    pub fn error(&self, i: usize) -> (e: Error)
        requires
            i < self.errors().len(),
        ensures
            e == self.errors()[i as int],
    {
        self.errors[i]
    }
}

impl Default for TypeCheckResults {
    fn default() -> (results: TypeCheckResults)
        ensures
            results.types() == Map::<u32, Ty>::empty(),
            results.entities() == Map::<u32, Entity>::empty(),
            results.errors() == Seq::<Error>::empty(),
    {
        Self { types: Default::default(), entities: Default::default(), errors: Default::default() }
    }
}

} // verus!
