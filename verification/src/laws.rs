//! The laws of the traversal order, stated over the spec model that the
//! engines' contracts speak of and proved once and for all: completeness of
//! the field walk, its pre-order shape, document-order concatenation, the
//! contiguity of a node's directive run, and the behaviour of the boundary
//! roots (an empty set, an empty document, a set holding only a spread).

use crate::ast::Definition;
use crate::ast::Directive;
use crate::ast::Document;
use crate::ast::Field;
use crate::ast::FragmentSpread;
use crate::ast::Selection;
use crate::ast::SelectionSet;
use crate::ast::definition_set;
use crate::visitor::DocumentFieldIter;
use crate::visitor::FieldIter;
use crate::visitor::SetDirectiveIter;
use crate::visitor::definitions_fields;
use crate::visitor::document_fields;
use crate::visitor::selection_directives;
use crate::visitor::selection_fields;
use crate::visitor::selections_directives;
use crate::visitor::selections_fields;
use crate::visitor::set_directives;
use crate::visitor::set_fields;
use vstd::prelude::*;

verus! {

/// Membership in a concatenation is membership in either part.
proof fn lemma_seq_add_contains<A>(a: Seq<A>, b: Seq<A>, x: A)
    ensures
        (a + b).contains(x) <==> a.contains(x) || b.contains(x),
{
    if a.contains(x) {
        let i = choose|i: int| 0 <= i < a.len() && a[i] == x;
        assert((a + b)[i] == x);
    }
    if b.contains(x) {
        let i = choose|i: int| 0 <= i < b.len() && b[i] == x;
        assert((a + b)[a.len() + i] == x);
    }
    if (a + b).contains(x) {
        let i = choose|i: int| 0 <= i < (a + b).len() && (a + b)[i] == x;
        if i < a.len() {
            assert(a[i] == x);
        } else {
            assert(b[i - a.len()] == x);
        }
    }
}

/// Whether a walk of one selection can reach `f` through field and
/// inline-fragment nesting alone; a fragment spread reaches nothing.
pub open spec fn selection_reaches_field(s: Selection, f: Field) -> bool
    decreases s,
{
    match s {
        Selection::Field(g) => g == f || selections_reach_field(g.selection_set.items@, f),
        Selection::InlineFragment(g) => selections_reach_field(g.selection_set.items@, f),
        Selection::FragmentSpread(_) => false,
    }
}

/// Whether some sibling of a list reaches `f`.
pub open spec fn selections_reach_field(items: Seq<Selection>, f: Field) -> bool
    decreases items,
{
    if items.len() == 0 {
        false
    } else {
        selection_reaches_field(items[0], f) || selections_reach_field(
            items.subrange(1, items.len() as int),
            f,
        )
    }
}

/// Whether a selection set reaches `f` without following any spread.
pub open spec fn set_reaches_field(ss: SelectionSet, f: Field) -> bool {
    selections_reach_field(ss.items@, f)
}

proof fn lemma_selection_fields_reachable(s: Selection, f: Field)
    ensures
        selection_fields(s).contains(f) <==> selection_reaches_field(s, f),
    decreases s,
{
    match s {
        Selection::Field(g) => {
            lemma_selections_fields_reachable(g.selection_set.items@, f);
            lemma_seq_add_contains(seq![g], selections_fields(g.selection_set.items@), f);
            assert(seq![g][0] == g);
            if g == f {
                assert(seq![g].contains(f));
            }
            if seq![g].contains(f) {
                let i = choose|i: int| 0 <= i < 1 && seq![g][i] == f;
                assert(g == f);
            }
        },
        Selection::InlineFragment(g) => {
            lemma_selections_fields_reachable(g.selection_set.items@, f);
        },
        Selection::FragmentSpread(_) => {
        },
    }
}

proof fn lemma_selections_fields_reachable(items: Seq<Selection>, f: Field)
    ensures
        selections_fields(items).contains(f) <==> selections_reach_field(items, f),
    decreases items,
{
    if items.len() > 0 {
        lemma_selection_fields_reachable(items[0], f);
        lemma_selections_fields_reachable(items.subrange(1, items.len() as int), f);
        lemma_seq_add_contains(
            selection_fields(items[0]),
            selections_fields(items.subrange(1, items.len() as int)),
            f,
        );
    }
}

/// Law: the field walk of a selection set lists exactly the fields
/// transitively reachable through field and inline-fragment nesting, and
/// nothing that is reachable only through a fragment spread.
pub proof fn lemma_fields_exactly_reachable(ss: SelectionSet, f: Field)
    ensures
        set_fields(ss).contains(f) <==> set_reaches_field(ss, f),
{
    lemma_selections_fields_reachable(ss.items@, f);
}

/// How often `f` occurs in a sequence of fields.
pub open spec fn occurrences(s: Seq<Field>, f: Field) -> nat
    decreases s.len(),
{
    if s.len() == 0 {
        0
    } else {
        (if s[0] == f {
            1nat
        } else {
            0nat
        }) + occurrences(s.drop_first(), f)
    }
}

proof fn lemma_occurrences_add(a: Seq<Field>, b: Seq<Field>, f: Field)
    ensures
        occurrences(a + b, f) == occurrences(a, f) + occurrences(b, f),
    decreases a.len(),
{
    if a.len() == 0 {
        assert(a + b =~= b);
    } else {
        assert((a + b)[0] == a[0]);
        assert((a + b).drop_first() =~= a.drop_first() + b);
        lemma_occurrences_add(a.drop_first(), b, f);
    }
}

/// How many selection nodes of one selection's subtree are fields equal to
/// `f`, counted without following any fragment spread.
pub open spec fn selection_field_count(s: Selection, f: Field) -> nat
    decreases s,
{
    match s {
        Selection::Field(g) => (if g == f {
            1nat
        } else {
            0nat
        }) + selections_field_count(g.selection_set.items@, f),
        Selection::InlineFragment(g) => selections_field_count(g.selection_set.items@, f),
        Selection::FragmentSpread(_) => 0,
    }
}

/// The same count over a list of siblings.
pub open spec fn selections_field_count(items: Seq<Selection>, f: Field) -> nat
    decreases items,
{
    if items.len() == 0 {
        0
    } else {
        selection_field_count(items[0], f) + selections_field_count(
            items.subrange(1, items.len() as int),
            f,
        )
    }
}

/// The same count over a whole selection set.
pub open spec fn set_field_count(ss: SelectionSet, f: Field) -> nat {
    selections_field_count(ss.items@, f)
}

proof fn lemma_selection_fields_count(s: Selection, f: Field)
    ensures
        occurrences(selection_fields(s), f) == selection_field_count(s, f),
    decreases s,
{
    match s {
        Selection::Field(g) => {
            lemma_selections_fields_count(g.selection_set.items@, f);
            lemma_occurrences_add(seq![g], selections_fields(g.selection_set.items@), f);
            assert(seq![g].drop_first() =~= Seq::<Field>::empty());
            assert(occurrences(Seq::<Field>::empty(), f) == 0);
            assert(seq![g][0] == g);
            assert(occurrences(seq![g], f) == (if g == f {
                1nat
            } else {
                0nat
            }));
        },
        Selection::InlineFragment(g) => {
            lemma_selections_fields_count(g.selection_set.items@, f);
        },
        Selection::FragmentSpread(_) => {
        },
    }
}

proof fn lemma_selections_fields_count(items: Seq<Selection>, f: Field)
    ensures
        occurrences(selections_fields(items), f) == selections_field_count(items, f),
    decreases items,
{
    if items.len() > 0 {
        lemma_selection_fields_count(items[0], f);
        lemma_selections_fields_count(items.subrange(1, items.len() as int), f);
        lemma_occurrences_add(
            selection_fields(items[0]),
            selections_fields(items.subrange(1, items.len() as int)),
            f,
        );
    }
}

/// Law: the walk visits each reachable field node exactly once: a field
/// value occurs in the listing exactly as often as nodes equal to it stand
/// in the tree, spreads' referents never counted.
pub proof fn lemma_fields_visited_exactly_once(ss: SelectionSet, f: Field)
    ensures
        occurrences(set_fields(ss), f) == set_field_count(ss, f),
{
    lemma_selections_fields_count(ss.items@, f);
}

/// Law: the listing is pre-order: a field stands at the head of its own
/// segment, immediately before the listing of its own subtree.
pub proof fn lemma_field_before_descendants(f: Field)
    ensures
        selection_fields(Selection::Field(f)).len() == 1 + set_fields(f.selection_set).len(),
        selection_fields(Selection::Field(f))[0] == f,
        selection_fields(Selection::Field(f)).drop_first() == set_fields(f.selection_set),
{
    assert(selection_fields(Selection::Field(f)).drop_first() =~= set_fields(f.selection_set));
}

/// Law: sibling order is document order: the listing of a list of siblings
/// is the listing of any prefix followed by the listing of the rest.
pub proof fn lemma_sibling_order(items: Seq<Selection>, i: int)
    requires
        0 <= i <= items.len(),
    ensures
        selections_fields(items) == selections_fields(items.subrange(0, i))
            + selections_fields(items.subrange(i, items.len() as int)),
    decreases i,
{
    let n = items.len() as int;
    if i == 0 {
        assert(items.subrange(0, 0) =~= Seq::<Selection>::empty());
        assert(items.subrange(0, n) =~= items);
        assert(selections_fields(items.subrange(0, 0)) + selections_fields(
            items.subrange(0, n),
        ) =~= selections_fields(items));
    } else {
        let tail = items.subrange(1, n);
        lemma_sibling_order(tail, i - 1);
        assert(tail.subrange(0, i - 1) =~= items.subrange(1, i));
        assert(tail.subrange(i - 1, tail.len() as int) =~= items.subrange(i, n));
        let head = items.subrange(0, i);
        assert(head[0] == items[0]);
        assert(head.subrange(1, head.len() as int) =~= items.subrange(1, i));
        assert(selections_fields(items) =~= selections_fields(head) + selections_fields(
            items.subrange(i, n),
        ));
    }
}

/// Law: the document walk is the concatenation, in definition order, of the
/// walks of the definitions' bodies: any prefix of the definitions comes
/// out before the rest.
pub proof fn lemma_document_order(defs: Seq<Definition>, i: int)
    requires
        0 <= i <= defs.len(),
    ensures
        definitions_fields(defs) == definitions_fields(defs.subrange(0, i))
            + definitions_fields(defs.subrange(i, defs.len() as int)),
    decreases i,
{
    let n = defs.len() as int;
    if i == 0 {
        assert(defs.subrange(0, 0) =~= Seq::<Definition>::empty());
        assert(defs.subrange(0, n) =~= defs);
        assert(definitions_fields(defs.subrange(0, 0)) + definitions_fields(
            defs.subrange(0, n),
        ) =~= definitions_fields(defs));
    } else {
        let tail = defs.subrange(1, n);
        lemma_document_order(tail, i - 1);
        assert(tail.subrange(0, i - 1) =~= defs.subrange(1, i));
        assert(tail.subrange(i - 1, tail.len() as int) =~= defs.subrange(i, n));
        let head = defs.subrange(0, i);
        assert(head[0] == defs[0]);
        assert(head.subrange(1, head.len() as int) =~= defs.subrange(1, i));
        assert(definitions_fields(defs) =~= definitions_fields(head) + definitions_fields(
            defs.subrange(i, n),
        ));
    }
}

/// Law: definition `i`'s fields form one contiguous segment of the document
/// listing, between its predecessors' fields and its successors'.
pub proof fn lemma_document_segment(d: Document, i: int)
    requires
        0 <= i < d.definitions@.len(),
    ensures
        document_fields(d) == definitions_fields(d.definitions@.subrange(0, i)) + set_fields(
            definition_set(d.definitions@[i]),
        ) + definitions_fields(
            d.definitions@.subrange(i + 1, d.definitions@.len() as int),
        ),
{
    let defs = d.definitions@;
    let n = defs.len() as int;
    lemma_document_order(defs, i);
    let rest = defs.subrange(i, n);
    assert(rest[0] == defs[i]);
    assert(rest.subrange(1, rest.len() as int) =~= defs.subrange(i + 1, n));
    assert(definitions_fields(defs.subrange(0, i)) + (set_fields(definition_set(defs[i]))
        + definitions_fields(defs.subrange(i + 1, n))) =~= definitions_fields(
        defs.subrange(0, i),
    ) + set_fields(definition_set(defs[i])) + definitions_fields(defs.subrange(i + 1, n)));
}

/// The directives a node itself carries.
pub open spec fn own_directives(s: Selection) -> Seq<Directive> {
    match s {
        Selection::Field(f) => f.directives@,
        Selection::InlineFragment(g) => g.directives@,
        Selection::FragmentSpread(sp) => sp.directives@,
    }
}

/// The siblings nested directly under a node; a fragment spread has none.
pub open spec fn nested_selections(s: Selection) -> Seq<Selection> {
    match s {
        Selection::Field(f) => f.selection_set.items@,
        Selection::InlineFragment(g) => g.selection_set.items@,
        Selection::FragmentSpread(_) => Seq::empty(),
    }
}

/// Law: a node's own directives come out as one contiguous run, in declared
/// order, before any directive that belongs to a descendant.
pub proof fn lemma_directives_before_descendants(s: Selection)
    ensures
        selection_directives(s) == own_directives(s) + selections_directives(
            nested_selections(s),
        ),
        selection_directives(s).subrange(0, own_directives(s).len() as int) == own_directives(s),
{
    match s {
        Selection::Field(_) => {
        },
        Selection::InlineFragment(_) => {
        },
        Selection::FragmentSpread(sp) => {
            assert(sp.directives@ + selections_directives(Seq::empty()) =~= sp.directives@);
        },
    }
    assert(selection_directives(s).subrange(0, own_directives(s).len() as int) =~= own_directives(
        s,
    ));
}

/// Law: a fresh field engine's output is a function of the root alone: two
/// engines built over the same root owe identical sequences.
pub proof fn lemma_field_engine_restartable(a: FieldIter<'_>, b: FieldIter<'_>, root: SelectionSet)
    requires
        a.to_come() == set_fields(root),
        b.to_come() == set_fields(root),
    ensures
        a.to_come() == b.to_come(),
{
}

/// Law: a fresh document engine's output is a function of the root alone.
pub proof fn lemma_document_engine_restartable(
    a: DocumentFieldIter<'_>,
    b: DocumentFieldIter<'_>,
    root: Document,
)
    requires
        a.to_come() == document_fields(root),
        b.to_come() == document_fields(root),
    ensures
        a.to_come() == b.to_come(),
{
}

/// Law: a fresh directive engine's output is a function of the root alone.
pub proof fn lemma_directive_engine_restartable(
    a: SetDirectiveIter<'_>,
    b: SetDirectiveIter<'_>,
    root: SelectionSet,
)
    requires
        a.to_come() == set_directives(root),
        b.to_come() == set_directives(root),
    ensures
        a.to_come() == b.to_come(),
{
}

/// Law: an empty selection set yields nothing to either engine, and a
/// document without definitions yields no fields.
pub proof fn lemma_empty_roots(ss: SelectionSet, d: Document)
    requires
        ss.items@.len() == 0,
        d.definitions@.len() == 0,
    ensures
        set_fields(ss) == Seq::<Field>::empty(),
        set_directives(ss) == Seq::<Directive>::empty(),
        document_fields(d) == Seq::<Field>::empty(),
{
}

/// Law: a selection set holding only a fragment spread yields no fields,
/// and exactly the spread's own directives: none at all when the spread is
/// undecorated.
pub proof fn lemma_spread_only(ss: SelectionSet, sp: FragmentSpread)
    requires
        ss.items@ == seq![Selection::FragmentSpread(sp)],
    ensures
        set_fields(ss) == Seq::<Field>::empty(),
        set_directives(ss) == sp.directives@,
{
    let items = ss.items@;
    assert(items.len() == 1);
    assert(items[0] == Selection::FragmentSpread(sp));
    assert(items.subrange(1, 1) =~= Seq::<Selection>::empty());
    assert(selections_fields(items) == selection_fields(items[0]) + selections_fields(
        items.subrange(1, 1),
    ));
    assert(selections_directives(items) == selection_directives(items[0])
        + selections_directives(items.subrange(1, 1)));
    assert(set_fields(ss) =~= Seq::<Field>::empty());
    assert(set_directives(ss) =~= sp.directives@);
}

} // verus!
