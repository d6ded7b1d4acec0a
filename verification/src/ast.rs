//! The immutable tree that the traversal engines walk: a parsed
//! query-language document, already validated by its producer.  The engines
//! only borrow these nodes; nothing here is ever mutated by a traversal.

use vstd::prelude::*;

verus! {

/// A named annotation with arguments, always attached to a field, inline
/// fragment, or fragment spread, never free-standing.
pub struct Directive {
    pub name: String,
    pub arguments: Vec<(String, String)>,
}

/// An ordered list of selections: the body of an operation, fragment,
/// field, or inline fragment.  The order is document order and is
/// semantically significant.
pub struct SelectionSet {
    pub items: Vec<Selection>,
}

/// One entry of a selection set.
pub enum Selection {
    Field(Field),
    InlineFragment(InlineFragment),
    FragmentSpread(FragmentSpread),
}

/// A named selection that may request sub-fields through its own, possibly
/// empty, nested selection set.
pub struct Field {
    pub name: String,
    pub directives: Vec<Directive>,
    pub selection_set: SelectionSet,
}

/// An unnamed, type-narrowing selection with its own nested selection set;
/// it contributes no field of its own.
pub struct InlineFragment {
    pub directives: Vec<Directive>,
    pub selection_set: SelectionSet,
}

/// A reference, by name, to a fragment defined elsewhere.  It carries no
/// nested selection set of its own; resolving the reference is out of scope
/// and a traversal never follows it.
pub struct FragmentSpread {
    pub fragment_name: String,
    pub directives: Vec<Directive>,
}

/// A top-level definition of a document; each kind owns exactly one
/// selection set as its body.
pub enum Definition {
    Operation(OperationDefinition),
    Fragment(FragmentDefinition),
}

/// An operation (query-like) definition.
pub struct OperationDefinition {
    pub name: Option<String>,
    pub selection_set: SelectionSet,
}

/// A named fragment definition.
pub struct FragmentDefinition {
    pub name: String,
    pub selection_set: SelectionSet,
}

/// The top-level parsed unit: an ordered sequence of definitions.
pub struct Document {
    pub definitions: Vec<Definition>,
}

/// The selection set that is a definition's body.
pub open spec fn definition_set(d: Definition) -> SelectionSet {
    match d {
        Definition::Operation(op) => op.selection_set,
        Definition::Fragment(fr) => fr.selection_set,
    }
}

} // verus!
