//! The traversal engines and their mathematical model.
//!
//! The spec functions below define, by structural recursion, the exact
//! sequence of fields (respectively directives) that a depth-first,
//! pre-order walk of a selection tree visits.  Each engine's contract pins
//! its whole future output to one of these sequences, so a caller that
//! drains an engine knows, element by element, what it received.

use crate::ast::Definition;
use crate::ast::Directive;
use crate::ast::Document;
use crate::ast::Field;
use crate::ast::Selection;
use crate::ast::SelectionSet;
use crate::ast::definition_set;
use vstd::prelude::*;

verus! {

/// The fields a pre-order walk of one selection yields: a field stands
/// before everything nested inside it, an inline fragment contributes only
/// its children, and a fragment spread is a dead end.
pub open spec fn selection_fields(s: Selection) -> Seq<Field>
    decreases s,
{
    match s {
        Selection::Field(f) => seq![f] + selections_fields(f.selection_set.items@),
        Selection::InlineFragment(g) => selections_fields(g.selection_set.items@),
        Selection::FragmentSpread(_) => Seq::empty(),
    }
}

/// The fields a pre-order walk of a list of sibling selections yields, in
/// sibling order.
pub open spec fn selections_fields(items: Seq<Selection>) -> Seq<Field>
    decreases items,
{
    if items.len() == 0 {
        Seq::empty()
    } else {
        selection_fields(items[0]) + selections_fields(
            items.subrange(1, items.len() as int),
        )
    }
}

/// The fields a pre-order walk of a whole selection set yields.
pub open spec fn set_fields(ss: SelectionSet) -> Seq<Field> {
    selections_fields(ss.items@)
}

/// The directives a pre-order walk of one selection yields: the node's own
/// directives first, in declared order, then those of its descendants.  A
/// fragment spread contributes its own directives but is never entered.
pub open spec fn selection_directives(s: Selection) -> Seq<Directive>
    decreases s,
{
    match s {
        Selection::Field(f) => f.directives@ + selections_directives(f.selection_set.items@),
        Selection::InlineFragment(g) => g.directives@ + selections_directives(
            g.selection_set.items@,
        ),
        Selection::FragmentSpread(sp) => sp.directives@,
    }
}

/// The directives a pre-order walk of a list of sibling selections yields.
pub open spec fn selections_directives(items: Seq<Selection>) -> Seq<Directive>
    decreases items,
{
    if items.len() == 0 {
        Seq::empty()
    } else {
        selection_directives(items[0]) + selections_directives(
            items.subrange(1, items.len() as int),
        )
    }
}

/// The directives a pre-order walk of a whole selection set yields.
pub open spec fn set_directives(ss: SelectionSet) -> Seq<Directive> {
    selections_directives(ss.items@)
}

/// The number of selection nodes in one selection's subtree, fragment
/// spreads counted but never entered.  Bounds the work a traversal does.
pub open spec fn selection_size(s: Selection) -> nat
    decreases s,
{
    match s {
        Selection::Field(f) => 1 + selections_size(f.selection_set.items@),
        Selection::InlineFragment(g) => 1 + selections_size(g.selection_set.items@),
        Selection::FragmentSpread(_) => 1,
    }
}

/// The number of selection nodes in the subtrees of a list of siblings.
pub open spec fn selections_size(items: Seq<Selection>) -> nat
    decreases items,
{
    if items.len() == 0 {
        0
    } else {
        selection_size(items[0]) + selections_size(items.subrange(1, items.len() as int))
    }
}

/// The fields of a list of definitions: the concatenation, in definition
/// order, of each definition body's pre-order field listing.
pub open spec fn definitions_fields(defs: Seq<Definition>) -> Seq<Field>
    decreases defs.len(),
{
    if defs.len() == 0 {
        Seq::empty()
    } else {
        set_fields(definition_set(defs[0])) + definitions_fields(
            defs.subrange(1, defs.len() as int),
        )
    }
}

/// The fields of a whole document.
pub open spec fn document_fields(d: Document) -> Seq<Field> {
    definitions_fields(d.definitions@)
}

/// The field values behind a vector of borrowed fields.
pub open spec fn deref_fields(s: Seq<&Field>) -> Seq<Field> {
    s.map_values(|f: &Field| *f)
}

/// The directive values behind a vector of borrowed directives.
pub open spec fn deref_directives(s: Seq<&Directive>) -> Seq<Directive> {
    s.map_values(|d: &Directive| *d)
}

/// One level of an engine's explicit stack: a cursor over the remaining
/// siblings of one selection set.  `pos` is the next sibling to look at.
#[derive(Clone, Copy)]
struct Frame<'a> {
    items: &'a Vec<Selection>,
    pos: usize,
}

/// The siblings a frame has not yet looked at.
spec fn frame_rest(fr: Frame<'_>) -> Seq<Selection> {
    fr.items@.subrange(fr.pos as int, fr.items@.len() as int)
}

/// A frame's cursor stands inside its selection list.
spec fn frame_wf(fr: Frame<'_>) -> bool {
    fr.pos <= fr.items@.len()
}

/// Every frame of a stack is well formed.
spec fn stack_wf(stack: Seq<Frame<'_>>) -> bool {
    forall|i: int| 0 <= i < stack.len() ==> frame_wf(#[trigger] stack[i])
}

/// The fields still owed by a stack of frames, topmost frame first: the top
/// frame's remaining siblings are visited before backtracking resumes the
/// frames below it.
spec fn stack_fields(stack: Seq<Frame<'_>>) -> Seq<Field>
    decreases stack.len(),
{
    if stack.len() == 0 {
        Seq::empty()
    } else {
        selections_fields(frame_rest(stack.last())) + stack_fields(stack.drop_last())
    }
}

/// The number of selection nodes a stack of frames has still to walk.
spec fn stack_size(stack: Seq<Frame<'_>>) -> nat
    decreases stack.len(),
{
    if stack.len() == 0 {
        0
    } else {
        selections_size(frame_rest(stack.last())) + stack_size(stack.drop_last())
    }
}

/// Splitting off the first remaining sibling of a frame splits its field,
/// directive and size measures accordingly.
proof fn lemma_tail_unfold(items: Seq<Selection>, pos: int)
    requires
        0 <= pos < items.len(),
    ensures
        selections_fields(items.subrange(pos, items.len() as int)) == selection_fields(
            items[pos],
        ) + selections_fields(items.subrange(pos + 1, items.len() as int)),
        selections_directives(items.subrange(pos, items.len() as int)) == selection_directives(
            items[pos],
        ) + selections_directives(items.subrange(pos + 1, items.len() as int)),
        selections_size(items.subrange(pos, items.len() as int)) == selection_size(items[pos])
            + selections_size(items.subrange(pos + 1, items.len() as int)),
{
    let t = items.subrange(pos, items.len() as int);
    assert(t[0] == items[pos]);
    assert(t.subrange(1, t.len() as int) =~= items.subrange(pos + 1, items.len() as int));
}

/// Pushing a frame puts its remaining work in front of the stack's.
proof fn lemma_stack_push(stack: Seq<Frame<'_>>, fr: Frame<'_>)
    ensures
        stack_fields(stack.push(fr)) == selections_fields(frame_rest(fr)) + stack_fields(stack),
        stack_size(stack.push(fr)) == selections_size(frame_rest(fr)) + stack_size(stack),
{
    assert(stack.push(fr).last() == fr);
    assert(stack.push(fr).drop_last() =~= stack);
}

/// An exhausted frame owes nothing.
proof fn lemma_exhausted_frame(fr: Frame<'_>)
    requires
        frame_wf(fr),
        fr.pos == fr.items@.len(),
    ensures
        selections_fields(frame_rest(fr)) == Seq::<Field>::empty(),
        selections_directives(frame_rest(fr)) == Seq::<Directive>::empty(),
        selections_size(frame_rest(fr)) == 0,
{
    assert(frame_rest(fr) =~= Seq::<Selection>::empty());
}

/// The field traversal engine: a lazy, depth-first, pre-order walk of a
/// selection set that yields every field at any nesting depth, in document
/// order, and never follows a fragment spread.
pub struct FieldIter<'a> {
    stack: Vec<Frame<'a>>,
}

impl<'a> FieldIter<'a> {
    /// The engine's internal stack is well formed.
    pub closed spec fn wf(self) -> bool {
        stack_wf(self.stack@)
    }

    /// The fields this engine has yet to yield, in order.
    pub closed spec fn to_come(self) -> Seq<Field> {
        stack_fields(self.stack@)
    }

    /// A fresh engine over `root`, owing exactly the pre-order field
    /// listing of `root`.
    pub fn new(root: &'a SelectionSet) -> (it: FieldIter<'a>)
        ensures
            it.wf(),
            it.to_come() == set_fields(*root),
    {
        let mut stack: Vec<Frame<'a>> = Vec::new();
        stack.push(Frame { items: &root.items, pos: 0 });
        let it = FieldIter { stack };
        proof {
            assert(it.stack@.drop_last() =~= Seq::<Frame<'_>>::empty());
            assert(stack_fields(it.stack@.drop_last()) == Seq::<Field>::empty());
            assert(frame_rest(it.stack@.last()) =~= root.items@);
            assert(stack_fields(it.stack@) =~= selections_fields(root.items@));
        }
        it
    }

    /// One step of the walk: the next field in pre-order document order, or
    /// `None` once the walk is over.  The engine owes first the field it
    /// hands out, then the rest of what it owed.
    pub fn next(&mut self) -> (r: Option<&'a Field>)
        requires
            old(self).wf(),
        ensures
            final(self).wf(),
            (match r {
                Option::Some(f) => old(self).to_come().len() > 0 && *f == old(self).to_come()[0]
                    && final(self).to_come() == old(self).to_come().drop_first(),
                Option::None => old(self).to_come().len() == 0 && final(self).to_come().len() == 0,
            }),
    {
        loop
            invariant
                self.wf(),
                self.to_come() == old(self).to_come(),
            decreases stack_size(self.stack@), self.stack@.len(),
        {
            let ghost pre_stack = self.stack@;
            let popped = self.stack.pop();
            match popped {
                Option::None => {
                    return Option::None;
                },
                Option::Some(fr) => {
                    proof {
                        assert(pre_stack.drop_last() =~= self.stack@);
                    }
                    if fr.pos < fr.items.len() {
                        proof {
                            lemma_tail_unfold(fr.items@, fr.pos as int);
                        }
                        let sel: &'a Selection = &fr.items[fr.pos];
                        self.stack.push(Frame { items: fr.items, pos: fr.pos + 1 });
                        let ghost advanced = self.stack@;
                        proof {
                            lemma_stack_push(
                                pre_stack.drop_last(),
                                Frame { items: fr.items, pos: (fr.pos + 1) as usize },
                            );
                        }
                        match sel {
                            Selection::Field(f) => {
                                self.stack.push(
                                    Frame { items: &f.selection_set.items, pos: 0 },
                                );
                                proof {
                                    lemma_stack_push(
                                        advanced,
                                        Frame { items: &f.selection_set.items, pos: 0 },
                                    );
                                    assert(frame_rest(
                                        Frame { items: &f.selection_set.items, pos: 0 },
                                    ) =~= f.selection_set.items@);
                                    assert(self.to_come() =~= old(self).to_come().drop_first());
                                }
                                return Option::Some(f);
                            },
                            Selection::InlineFragment(g) => {
                                self.stack.push(
                                    Frame { items: &g.selection_set.items, pos: 0 },
                                );
                                proof {
                                    lemma_stack_push(
                                        advanced,
                                        Frame { items: &g.selection_set.items, pos: 0 },
                                    );
                                    assert(frame_rest(
                                        Frame { items: &g.selection_set.items, pos: 0 },
                                    ) =~= g.selection_set.items@);
                                    assert(self.to_come() =~= old(self).to_come());
                                }
                            },
                            Selection::FragmentSpread(_) => {
                            },
                        }
                    } else {
                        proof {
                            lemma_exhausted_frame(fr);
                        }
                    }
                },
            }
        }
    }

    /// Drains the engine into a vector: the whole sequence it still owed,
    /// in order.
    #[verifier::loop_isolation(false)]
    pub fn into_vec(self) -> (out: Vec<&'a Field>)
        requires
            self.wf(),
        ensures
            deref_fields(out@) == self.to_come(),
    {
        let mut it = self;
        let ghost owed = it.to_come();
        let mut out: Vec<&'a Field> = Vec::new();
        loop
            invariant
                it.wf(),
                deref_fields(out@) + it.to_come() == owed,
            decreases it.to_come().len(),
        {
            match it.next() {
                Option::Some(f) => {
                    out.push(f);
                    proof {
                        assert(deref_fields(out@) + it.to_come() =~= owed);
                    }
                },
                Option::None => {
                    proof {
                        assert(deref_fields(out@) =~= owed);
                    }
                    return out;
                },
            }
        }
    }
}

/// The document field traversal engine: the concatenation, in document
/// order, of the field engine's output over each definition's selection
/// set.  Each sub-engine is built only when the previous one is exhausted.
pub struct DocumentFieldIter<'a> {
    doc_defs: &'a Vec<Definition>,
    pos: usize,
    field_iter: Option<FieldIter<'a>>,
}

impl<'a> DocumentFieldIter<'a> {
    /// The definition cursor stands inside the list and any live sub-engine
    /// is well formed.
    pub closed spec fn wf(self) -> bool {
        &&& self.pos <= self.doc_defs@.len()
        &&& (match self.field_iter {
            Option::Some(it) => it.wf(),
            Option::None => true,
        })
    }

    /// The fields this engine has yet to yield: what the live sub-engine
    /// still owes, then the listings of the definitions not yet entered.
    pub closed spec fn to_come(self) -> Seq<Field> {
        (match self.field_iter {
            Option::Some(it) => it.to_come(),
            Option::None => Seq::empty(),
        }) + definitions_fields(
            self.doc_defs@.subrange(self.pos as int, self.doc_defs@.len() as int),
        )
    }

    /// A fresh engine over `root`, owing exactly the concatenated field
    /// listings of the document's definitions.
    pub fn new(root: &'a Document) -> (it: DocumentFieldIter<'a>)
        ensures
            it.wf(),
            it.to_come() == document_fields(*root),
    {
        let it = DocumentFieldIter { doc_defs: &root.definitions, pos: 0, field_iter: Option::None };
        proof {
            assert(it.doc_defs@.subrange(0, it.doc_defs@.len() as int) =~= root.definitions@);
            assert(it.to_come() =~= definitions_fields(root.definitions@));
        }
        it
    }

    /// One step: the next field of the document, or `None` once every
    /// definition's walk is over.
    pub fn next(&mut self) -> (r: Option<&'a Field>)
        requires
            old(self).wf(),
        ensures
            final(self).wf(),
            (match r {
                Option::Some(f) => old(self).to_come().len() > 0 && *f == old(self).to_come()[0]
                    && final(self).to_come() == old(self).to_come().drop_first(),
                Option::None => old(self).to_come().len() == 0 && final(self).to_come().len() == 0,
            }),
    {
        loop
            invariant
                self.wf(),
                self.to_come() == old(self).to_come(),
                self.doc_defs == old(self).doc_defs,
            decreases self.doc_defs@.len() - self.pos,
        {
            let taken = self.field_iter.take();
            match taken {
                Option::Some(mut it) => {
                    let ghost rest = definitions_fields(
                        self.doc_defs@.subrange(self.pos as int, self.doc_defs@.len() as int),
                    );
                    let r = it.next();
                    match r {
                        Option::Some(f) => {
                            proof {
                                assert(it.to_come() + rest =~= (old(
                                    self,
                                ).to_come()).drop_first());
                            }
                            self.field_iter = Option::Some(it);
                            return Option::Some(f);
                        },
                        Option::None => {
                        },
                    }
                },
                Option::None => {
                },
            }
            if self.pos < self.doc_defs.len() {
                proof {
                    lemma_definitions_tail_unfold(self.doc_defs@, self.pos as int);
                }
                let d: &'a Definition = &self.doc_defs[self.pos];
                let ss: &'a SelectionSet = match d {
                    Definition::Operation(op) => &op.selection_set,
                    Definition::Fragment(fr) => &fr.selection_set,
                };
                self.pos = self.pos + 1;
                let sub = FieldIter::new(ss);
                self.field_iter = Option::Some(sub);
                proof {
                    assert(*ss == definition_set(old(self).doc_defs@[self.pos - 1]));
                    assert(self.to_come() =~= old(self).to_come());
                }
            } else {
                return Option::None;
            }
        }
    }

    /// Drains the engine into a vector: the whole sequence it still owed,
    /// in order.
    #[verifier::loop_isolation(false)]
    pub fn into_vec(self) -> (out: Vec<&'a Field>)
        requires
            self.wf(),
        ensures
            deref_fields(out@) == self.to_come(),
    {
        let mut it = self;
        let ghost owed = it.to_come();
        let mut out: Vec<&'a Field> = Vec::new();
        loop
            invariant
                it.wf(),
                deref_fields(out@) + it.to_come() == owed,
            decreases it.to_come().len(),
        {
            match it.next() {
                Option::Some(f) => {
                    out.push(f);
                    proof {
                        assert(deref_fields(out@) + it.to_come() =~= owed);
                    }
                },
                Option::None => {
                    proof {
                        assert(deref_fields(out@) =~= owed);
                    }
                    return out;
                },
            }
        }
    }
}

/// Splitting off the first definition splits the document's field listing.
proof fn lemma_definitions_tail_unfold(defs: Seq<Definition>, pos: int)
    requires
        0 <= pos < defs.len(),
    ensures
        definitions_fields(defs.subrange(pos, defs.len() as int)) == set_fields(
            definition_set(defs[pos]),
        ) + definitions_fields(defs.subrange(pos + 1, defs.len() as int)),
{
    let t = defs.subrange(pos, defs.len() as int);
    assert(t[0] == defs[pos]);
    assert(t.subrange(1, t.len() as int) =~= defs.subrange(pos + 1, defs.len() as int));
}

/// A cursor over the directive list of the node most recently entered.
#[derive(Clone, Copy)]
struct DirCursor<'a> {
    directives: &'a Vec<Directive>,
    pos: usize,
}

/// The directives a cursor has not yet handed out.
spec fn cursor_rest(c: DirCursor<'_>) -> Seq<Directive> {
    c.directives@.subrange(c.pos as int, c.directives@.len() as int)
}

/// The directives still owed by a stack of frames, topmost frame first.
spec fn stack_directives(stack: Seq<Frame<'_>>) -> Seq<Directive>
    decreases stack.len(),
{
    if stack.len() == 0 {
        Seq::empty()
    } else {
        selections_directives(frame_rest(stack.last())) + stack_directives(stack.drop_last())
    }
}

/// Pushing a frame puts its remaining directives in front of the stack's.
proof fn lemma_stack_push_directives(stack: Seq<Frame<'_>>, fr: Frame<'_>)
    ensures
        stack_directives(stack.push(fr)) == selections_directives(frame_rest(fr))
            + stack_directives(stack),
{
    assert(stack.push(fr).last() == fr);
    assert(stack.push(fr).drop_last() =~= stack);
}

/// The directive traversal engine: a lazy, depth-first, pre-order walk of a
/// selection set that yields, for each node encountered, all of that node's
/// own directives before anything of its children, and that reads a
/// fragment spread's own directives without ever entering its referent.
pub struct SetDirectiveIter<'a> {
    stack: Vec<Frame<'a>>,
    directive_iter: Option<DirCursor<'a>>,
}

impl<'a> SetDirectiveIter<'a> {
    /// Every frame and the live directive cursor stand inside their lists.
    pub closed spec fn wf(self) -> bool {
        &&& stack_wf(self.stack@)
        &&& (match self.directive_iter {
            Option::Some(c) => c.pos <= c.directives@.len(),
            Option::None => true,
        })
    }

    /// The directives this engine has yet to yield: the rest of the current
    /// node's directive run, then everything the stack still owes.
    pub closed spec fn to_come(self) -> Seq<Directive> {
        (match self.directive_iter {
            Option::Some(c) => cursor_rest(c),
            Option::None => Seq::empty(),
        }) + stack_directives(self.stack@)
    }

    /// A fresh engine over `root`, owing exactly the pre-order directive
    /// listing of `root`.
    pub fn new(root: &'a SelectionSet) -> (it: SetDirectiveIter<'a>)
        ensures
            it.wf(),
            it.to_come() == set_directives(*root),
    {
        let mut stack: Vec<Frame<'a>> = Vec::new();
        stack.push(Frame { items: &root.items, pos: 0 });
        let it = SetDirectiveIter { stack, directive_iter: Option::None };
        proof {
            assert(it.stack@.drop_last() =~= Seq::<Frame<'_>>::empty());
            assert(stack_directives(it.stack@.drop_last()) == Seq::<Directive>::empty());
            assert(frame_rest(it.stack@.last()) =~= root.items@);
            assert(it.to_come() =~= selections_directives(root.items@));
        }
        it
    }

    /// One step of the walk: the next directive, or `None` once the walk is
    /// over.  A node's own directives come out as a contiguous run before
    /// the walk proceeds to the node's children or next sibling.
    #[verifier::rlimit(50)]
    pub fn next(&mut self) -> (r: Option<&'a Directive>)
        requires
            old(self).wf(),
        ensures
            final(self).wf(),
            (match r {
                Option::Some(d) => old(self).to_come().len() > 0 && *d == old(self).to_come()[0]
                    && final(self).to_come() == old(self).to_come().drop_first(),
                Option::None => old(self).to_come().len() == 0 && final(self).to_come().len() == 0,
            }),
    {
        loop
            invariant
                self.wf(),
                self.to_come() == old(self).to_come(),
            decreases stack_size(self.stack@), self.stack@.len(),
        {
            if let Option::Some(c) = self.directive_iter {
                if c.pos < c.directives.len() {
                    self.directive_iter = Option::Some(
                        DirCursor { directives: c.directives, pos: c.pos + 1 },
                    );
                    proof {
                        assert(cursor_rest(c)[0] == c.directives@[c.pos as int]);
                        assert(self.to_come() =~= old(self).to_come().drop_first());
                    }
                    return Option::Some(&c.directives[c.pos]);
                }
                self.directive_iter = Option::None;
                proof {
                    assert(cursor_rest(c) =~= Seq::<Directive>::empty());
                    assert(self.to_come() =~= old(self).to_come());
                }
            }
            let ghost pre_stack = self.stack@;
            let popped = self.stack.pop();
            match popped {
                Option::None => {
                    return Option::None;
                },
                Option::Some(fr) => {
                    proof {
                        assert(pre_stack.drop_last() =~= self.stack@);
                    }
                    if fr.pos < fr.items.len() {
                        proof {
                            lemma_tail_unfold(fr.items@, fr.pos as int);
                        }
                        let sel: &'a Selection = &fr.items[fr.pos];
                        self.stack.push(Frame { items: fr.items, pos: fr.pos + 1 });
                        let ghost advanced = self.stack@;
                        proof {
                            lemma_stack_push(
                                pre_stack.drop_last(),
                                Frame { items: fr.items, pos: (fr.pos + 1) as usize },
                            );
                            lemma_stack_push_directives(
                                pre_stack.drop_last(),
                                Frame { items: fr.items, pos: (fr.pos + 1) as usize },
                            );
                        }
                        match sel {
                            Selection::Field(f) => {
                                self.stack.push(
                                    Frame { items: &f.selection_set.items, pos: 0 },
                                );
                                self.directive_iter = Option::Some(
                                    DirCursor { directives: &f.directives, pos: 0 },
                                );
                                proof {
                                    lemma_stack_push(
                                        advanced,
                                        Frame { items: &f.selection_set.items, pos: 0 },
                                    );
                                    lemma_stack_push_directives(
                                        advanced,
                                        Frame { items: &f.selection_set.items, pos: 0 },
                                    );
                                    assert(frame_rest(
                                        Frame { items: &f.selection_set.items, pos: 0 },
                                    ) =~= f.selection_set.items@);
                                    assert(cursor_rest(
                                        DirCursor { directives: &f.directives, pos: 0 },
                                    ) =~= f.directives@);
                                    assert(self.to_come() =~= old(self).to_come());
                                }
                            },
                            Selection::InlineFragment(g) => {
                                self.stack.push(
                                    Frame { items: &g.selection_set.items, pos: 0 },
                                );
                                self.directive_iter = Option::Some(
                                    DirCursor { directives: &g.directives, pos: 0 },
                                );
                                proof {
                                    lemma_stack_push(
                                        advanced,
                                        Frame { items: &g.selection_set.items, pos: 0 },
                                    );
                                    lemma_stack_push_directives(
                                        advanced,
                                        Frame { items: &g.selection_set.items, pos: 0 },
                                    );
                                    assert(frame_rest(
                                        Frame { items: &g.selection_set.items, pos: 0 },
                                    ) =~= g.selection_set.items@);
                                    assert(cursor_rest(
                                        DirCursor { directives: &g.directives, pos: 0 },
                                    ) =~= g.directives@);
                                    assert(self.to_come() =~= old(self).to_come());
                                }
                            },
                            Selection::FragmentSpread(sp) => {
                                self.directive_iter = Option::Some(
                                    DirCursor { directives: &sp.directives, pos: 0 },
                                );
                                proof {
                                    assert(cursor_rest(
                                        DirCursor { directives: &sp.directives, pos: 0 },
                                    ) =~= sp.directives@);
                                    assert(self.to_come() =~= old(self).to_come());
                                }
                            },
                        }
                    } else {
                        proof {
                            lemma_exhausted_frame(fr);
                        }
                    }
                },
            }
        }
    }

    /// Drains the engine into a vector: the whole sequence it still owed,
    /// in order.
    #[verifier::loop_isolation(false)]
    pub fn into_vec(self) -> (out: Vec<&'a Directive>)
        requires
            self.wf(),
        ensures
            deref_directives(out@) == self.to_come(),
    {
        let mut it = self;
        let ghost owed = it.to_come();
        let mut out: Vec<&'a Directive> = Vec::new();
        loop
            invariant
                it.wf(),
                deref_directives(out@) + it.to_come() == owed,
            decreases it.to_come().len(),
        {
            match it.next() {
                Option::Some(d) => {
                    out.push(d);
                    proof {
                        assert(deref_directives(out@) + it.to_come() =~= owed);
                    }
                },
                Option::None => {
                    proof {
                        assert(deref_directives(out@) =~= owed);
                    }
                    return out;
                },
            }
        }
    }
}

} // verus!
