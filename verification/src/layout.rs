//! Laying a program out as a document: statement lists with the comments
//! among them, assignments, method calls without blocks, arrays, boolean
//! operations, `return`, `break` and `next`, parentheses, classes, modules
//! and methods without parameters, constant paths, integers, plain strings
//! and the literals that print as written, each with the comments that
//! trail it.
//! Every other node kind is copied from the source and reported, so the
//! caller can refuse the program.

use vstd::prelude::*;
use vstd::string::StringSliceAdditionalSpecFns;
use vstd::utf8::valid_utf8;
use crate::comments::{list_at, parts_at, Comment, CommentMap, Key};
use crate::doc::{
    Builder, BuilderModel, Doc, DocModel, Document, Fragment, Group, Line, Separator, builder_sources_fit, mark_broken,
    restored, trail_working, COMMENT_PRIORITY, LIMIT,
};
use crate::literals::{
    character_form, character_form_of, integer_rewrite, integer_text, string_form, string_form_of, CharacterForm,
    StringForm,
};
use crate::options::{DelimitedArgumentAlignment, FormatOptions, MultilineAssignmentLayout, PercentArrays};
use crate::print::sources_fit;
use crate::words::{directive_bytes, ignore_comment, is_ignore};
use crate::source::newlines;

verus! {

/// The kinds of syntax node laid out here.
#[derive(Clone, Copy, Debug, PartialEq, Eq, Structural)]
pub enum SyntaxKind {
    /// A statement list; its children are the statements.
    Statements,
    /// An assignment to a variable or constant: `head` is the target,
    /// `middle` the operator, and the one child the value.
    Write,
    /// An integer literal.
    Integer,
    /// A plain string or character literal: `head` is the opening
    /// delimiter, `middle` the content, `tail` the closing delimiter.
    String,
    /// A node printed as written: variables, constants, `nil`, `self`,
    /// floats and the like.
    Verbatim,
    /// A method call without a block: `head` is the call operator where
    /// there is a receiver (the first child), `middle` the method's name,
    /// `tail` the opening parenthesis where there is one; the other
    /// children are the arguments. The number is the kind reported where
    /// the call takes a layout not given here (a long chain).
    Call(u32),
    /// An array in square brackets; its children are the elements. The
    /// number is the kind reported where the array may take a `%w` or `%i`
    /// form instead.
    Array(u32),
    /// `class`: the first child is the name, then the superclass where
    /// `middle` (its `<`) is not empty, then the body where there is one.
    Class,
    /// `module`: the first child is the name, then the body where there is
    /// one.
    Module,
    /// `def` without parameters: `head` is the `.` after a receiver (the
    /// first child) where there is one, `middle` the name, `tail` an empty
    /// pair of parentheses where there is one; the body, where there is
    /// one, is the last child.
    Def,
    /// A constant looked up in another, `Parent::Name`: `middle` is the
    /// name, and the one child, where there is one, the parent (`::Name`
    /// has none).
    ConstantPath,
    /// `left && right`, `left or right` and the like: `middle` is the
    /// operator, the two children the operands.
    Boolean,
    /// `return`, `break` or `next`: `middle` is the keyword, the children
    /// the arguments. The number is the kind reported where the sole
    /// argument is an array, whose layout here is not given.
    Jump(u32),
    /// Parentheses; the one child, where there is one, is the statement
    /// list inside.
    Parentheses,
    /// A kind with no layout here, by the number the caller gave it.
    Unsupported(u32),
}

/// One syntax node, as plain offsets into the source.
#[derive(Clone, Copy, Debug)]
pub struct SyntaxNode {
    pub kind: SyntaxKind,
    pub start: usize,
    pub end: usize,
    pub head: (usize, usize),
    pub middle: (usize, usize),
    pub tail: (usize, usize),
    /// Where the node's children start in `Syntax::children`.
    pub children_start: usize,
    pub child_count: usize,
    /// The comments that trail the node: where they start in
    /// `Syntax::notes`, and how many.
    pub trailing: (usize, usize),
    /// A statement list's own-line comments, among its statements: where
    /// they start in `Syntax::notes`, and how many.
    pub body: (usize, usize),
}

/// A syntax tree: node 0 is the program's statement list.
pub struct Syntax {
    pub nodes: Vec<SyntaxNode>,
    pub children: Vec<usize>,
    /// The comments the nodes hold, each node's in source order.
    pub notes: Vec<Comment>,
}

/// Node `i`'s children lie in `children` and come after it, and its
/// comments lie in `notes`.
pub open spec fn node_wf(nodes: Seq<SyntaxNode>, children: Seq<usize>, notes: Seq<Comment>, i: int) -> bool {
    &&& nodes[i].trailing.0 + nodes[i].trailing.1 <= notes.len()
    &&& nodes[i].body.0 + nodes[i].body.1 <= notes.len()
    &&& nodes[i].children_start + nodes[i].child_count <= children.len()
    &&& forall|k: int|
        nodes[i].children_start <= k < nodes[i].children_start + nodes[i].child_count ==> i < #[trigger] children[k]
            < nodes.len()
}

impl Syntax {
    /// Every node's children lie in `children` and come after it, and its
    /// comments lie in `notes`.
    pub open spec fn wf(self) -> bool {
        forall|i: int| 0 <= i < self.nodes@.len() ==> #[trigger] node_wf(self.nodes@, self.children@, self.notes@, i)
    }

    /// Whether the tree is well formed.
    pub fn is_well_formed(&self) -> (ok: bool)
        ensures
            ok == self.wf(),
    {
        let n: usize = self.nodes.len();
        let mut i: usize = 0;
        while i < n
            invariant
                i <= n,
                n == self.nodes@.len(),
                forall|j: int| 0 <= j < i ==> #[trigger] node_wf(self.nodes@, self.children@, self.notes@, j),
            decreases n - i,
        {
            let node: SyntaxNode = self.nodes[i];
            let held: usize = self.notes.len();
            if node.child_count > self.children.len() || node.children_start > self.children.len() - node.child_count
                || node.trailing.1 > held || node.trailing.0 > held - node.trailing.1 || node.body.1 > held
                || node.body.0 > held - node.body.1 {
                proof {
                    assert(!node_wf(self.nodes@, self.children@, self.notes@, i as int));
                }
                return false;
            }
            let end: usize = node.children_start + node.child_count;
            let mut k: usize = node.children_start;
            while k < end
                invariant
                    node == self.nodes@[i as int],
                    end == node.children_start + node.child_count,
                    end <= self.children@.len(),
                    node.trailing.0 + node.trailing.1 <= self.notes@.len(),
                    node.body.0 + node.body.1 <= self.notes@.len(),
                    node.children_start <= k <= end,
                    i < n,
                    n == self.nodes@.len(),
                    forall|q: int| node.children_start <= q < k ==> i < #[trigger] self.children@[q] < n,
                decreases end - k,
            {
                let c: usize = self.children[k];
                if !(i < c && c < n) {
                    proof {
                        assert(self.children@[k as int] == c);
                        assert(!node_wf(self.nodes@, self.children@, self.notes@, i as int));
                    }
                    return false;
                }
                k = k + 1;
            }
            i = i + 1;
        }
        true
    }
}

impl Syntax {
    /// Whether every node's spans are whole characters within the source,
    /// every node has the shape its kind asks for, and every comment is a
    /// non-empty stretch of whole characters.
    pub open spec fn fits(self, source: Seq<u8>) -> bool {
        &&& forall|i: int| 0 <= i < self.nodes@.len() ==> #[trigger] node_fits(source, self.nodes@[i])
        &&& forall|i: int| 0 <= i < self.notes@.len() ==> #[trigger] comment_ok(source, self.notes@[i])
    }

    /// Whether the tree fits the source, as `fits` says.
    pub fn fits_source(&self, source: &[u8]) -> (ok: bool)
        ensures
            ok == self.fits(source@),
    {
        let mut i: usize = 0;
        while i < self.nodes.len()
            invariant
                i <= self.nodes@.len(),
                forall|j: int| 0 <= j < i ==> #[trigger] node_fits(source@, self.nodes@[j]),
            decreases self.nodes@.len() - i,
        {
            let node: SyntaxNode = self.nodes[i];
            let is_string: bool = match node.kind {
                SyntaxKind::String => true,
                _ => false,
            };
            if !(span_fits(source, (node.start, node.end)) && span_fits(source, node.head) && span_fits(
                source,
                node.middle,
            ) && span_fits(source, node.tail) && (!is_string || literal_fits(source, node.middle.0, node.middle.1))
                && shape_fits(node)) {
                proof {
                    assert(!node_fits(source@, self.nodes@[i as int]));
                }
                return false;
            }
            i = i + 1;
        }
        let mut k: usize = 0;
        while k < self.notes.len()
            invariant
                k <= self.notes@.len(),
                forall|j: int| 0 <= j < self.nodes@.len() ==> #[trigger] node_fits(source@, self.nodes@[j]),
                forall|j: int| 0 <= j < k ==> #[trigger] comment_ok(source@, self.notes@[j]),
            decreases self.notes@.len() - k,
        {
            let c: Comment = self.notes[k];
            if !(c.start < c.end && span_fits(source, (c.start, c.end)) && (!c.embdoc || literal_fits(
                source,
                c.start,
                c.end,
            ))) {
                proof {
                    assert(!comment_ok(source@, self.notes@[k as int]));
                }
                return false;
            }
            k = k + 1;
        }
        true
    }
}

/// Whether `s` is whole characters within the source.
fn span_fits(source: &[u8], s: (usize, usize)) -> (ok: bool)
    ensures
        ok == span_ok(source@, s),
{
    if !(s.0 <= s.1 && s.1 <= source.len()) {
        return false;
    }
    let piece: &[u8] = vstd::slice::slice_subrange(source, s.0, s.1);
    crate::unicode::str_from_utf8(piece).is_some()
}

/// Whether each line of `source[start..end]` is whole characters.
fn literal_fits(source: &[u8], start: usize, end: usize) -> (ok: bool)
    ensures
        ok == literal_ok(source@, start, start, end),
{
    let mut segment: usize = start;
    let mut k: usize = start;
    while k < end && k < source.len()
        invariant
            start <= segment <= k,
            literal_ok(source@, start, start, end) == literal_ok(source@, segment, k, end),
        decreases end - k,
    {
        if source[k] == 10u8 {
            if !span_fits(source, (segment, k)) {
                return false;
            }
            segment = k + 1;
        }
        k = k + 1;
    }
    span_fits(source, (segment, end))
}

/// Whether a node has the shape its kind asks for, as `shape_ok` says.
fn shape_fits(node: SyntaxNode) -> (ok: bool)
    ensures
        ok == shape_ok(node),
{
    let receivers: usize = if node.head.0 < node.head.1 {
        1
    } else {
        0
    };
    match node.kind {
        SyntaxKind::Write => node.child_count == 1,
        SyntaxKind::Call(_) | SyntaxKind::Def => node.child_count >= receivers,
        SyntaxKind::Class => receivers == 0 && node.child_count >= 1 && (node.middle.0 >= node.middle.1
            || node.child_count >= 2),
        SyntaxKind::Module => receivers == 0 && node.child_count >= 1,
        SyntaxKind::Boolean => receivers == 0 && node.child_count == 2,
        SyntaxKind::Array(_) | SyntaxKind::Jump(_) | SyntaxKind::Parentheses | SyntaxKind::ConstantPath => receivers
            == 0,
        _ => true,
    }
}

/// Why the comments placed on a node are not printed by the layouts here.
#[derive(Clone, Copy, Debug, PartialEq, Eq, Structural)]
pub enum NoteRefusal {
    /// Own-line comments in the node that no child claims.
    Dangling,
    /// Comments before the node, or in its header.
    Leading,
    /// An ignore directive among a statement list's comments.
    Ignore,
}

/// Whether `c` is an ignore directive within the source.
pub open spec fn ignore_here(source: Seq<u8>, directives: Seq<String>, c: Comment) -> bool {
    c.start < c.end <= source.len() && ignore_comment(source, c, directive_bytes(directives))
}

/// What the layouts here make of the comments placed on the node with
/// `key`: refused where some dangle in it, some come before it or in its
/// header, or a statement list's comments hold an ignore directive, in that
/// order; else the comments that trail it and those among its statements.
pub open spec fn notes_taken(
    placed: crate::comments::Placed,
    key: Key,
    source: Seq<u8>,
    directives: Seq<String>,
) -> Result<(Seq<Comment>, Seq<Comment>), NoteRefusal> {
    let parts = parts_at(placed.attached, key.id());
    let body = list_at(placed.body, key.id());
    if list_at(placed.dangling, key.id()).len() > 0 {
        Err(NoteRefusal::Dangling)
    } else if parts.0.len() > 0 || parts.1.len() > 0 {
        Err(NoteRefusal::Leading)
    } else if exists|i: int| 0 <= i < body.len() && #[trigger] ignore_here(source, directives, body[i]) {
        Err(NoteRefusal::Ignore)
    } else {
        Ok((parts.2, body))
    }
}

/// Takes the comments placed on the node with `key` into `notes`, as
/// `notes_taken` says, and returns where the trailing ones and those among
/// a statement list's entries stand there (start and count).
pub fn take_notes(
    map: &CommentMap,
    key: &Key,
    source: &[u8],
    directives: &[String],
    notes: &mut Vec<Comment>,
) -> (r: Result<((usize, usize), (usize, usize)), NoteRefusal>)
    ensures
        r matches Err(e) ==> notes_taken(map@, *key, source@, directives@) == Err::<(Seq<Comment>, Seq<Comment>), NoteRefusal>(e)
            && final(notes)@ == old(notes)@,
        r matches Ok(ranges) ==> ({
            let taken = notes_taken(map@, *key, source@, directives@);
            &&& taken is Ok
            &&& final(notes)@ == old(notes)@ + taken->Ok_0.0 + taken->Ok_0.1
            &&& ranges.0 == (old(notes)@.len() as usize, taken->Ok_0.0.len() as usize)
            &&& ranges.1 == ((old(notes)@.len() + taken->Ok_0.0.len()) as usize, taken->Ok_0.1.len() as usize)
        }),
{
    let dangling: &[Comment] = map.dangling(key);
    if dangling.len() > 0 {
        return Err(NoteRefusal::Dangling);
    }
    let empty: &[Comment] = &[];
    let trailing: &[Comment] = match map.get_key(key) {
        Some(attached) => {
            if attached.leading().len() > 0 || attached.header().len() > 0 {
                return Err(NoteRefusal::Leading);
            }
            attached.trailing()
        },
        None => {
            proof {
                assert(empty@ =~= Seq::<Comment>::empty());
            }
            empty
        },
    };
    proof {
        let parts = parts_at(map@.attached, key.id());
        assert(parts.0.len() == 0 && parts.1.len() == 0 && trailing@ == parts.2);
        assert(list_at(map@.dangling, key.id()).len() == 0);
    }
    let body: &[Comment] = map.body(key);
    let mut k: usize = 0;
    while k < body.len()
        invariant
            parts_at(map@.attached, key.id()).0.len() == 0,
            parts_at(map@.attached, key.id()).1.len() == 0,
            list_at(map@.dangling, key.id()).len() == 0,
            body@ == list_at(map@.body, key.id()),
            k <= body@.len(),
            forall|i: int| 0 <= i < k ==> !#[trigger] ignore_here(source@, directives@, body@[i]),
        decreases body@.len() - k,
    {
        let c: Comment = body[k];
        if c.start < c.end && c.end <= source.len() && is_ignore(source, c, directives) {
            proof {
                assert(ignore_here(source@, directives@, body@[k as int]));
            }
            return Err(NoteRefusal::Ignore);
        }
        k = k + 1;
    }
    let start: usize = notes.len();
    let mut i: usize = 0;
    let ghost before = notes@;
    while i < trailing.len()
        invariant
            i <= trailing@.len(),
            notes@ == before + trailing@.subrange(0, i as int),
        decreases trailing@.len() - i,
    {
        notes.push(trailing[i]);
        i = i + 1;
        proof {
            assert(trailing@.subrange(0, i as int) =~= trailing@.subrange(0, i - 1).push(trailing@[i - 1]));
        }
    }
    let middle: usize = notes.len();
    let mut j: usize = 0;
    let ghost between = notes@;
    while j < body.len()
        invariant
            j <= body@.len(),
            notes@ == between + body@.subrange(0, j as int),
        decreases body@.len() - j,
    {
        notes.push(body[j]);
        j = j + 1;
        proof {
            assert(body@.subrange(0, j as int) =~= body@.subrange(0, j - 1).push(body@[j - 1]));
        }
    }
    proof {
        assert(trailing@.subrange(0, trailing@.len() as int) =~= trailing@);
        assert(body@.subrange(0, body@.len() as int) =~= body@);
    }
    Ok(((start, trailing.len()), (middle, body.len())))
}

/// Why a program was not laid out.
#[derive(Clone, Debug)]
pub enum LayoutError {
    /// Nodes of these kinds have no layout.
    Unsupported(Vec<u32>),
    /// The tree is not well formed, or an offset lies outside the source or
    /// splits a character.
    Malformed,
    /// The document would outgrow its arenas.
    TooLarge,
}

/// Whether `s` is a stretch of whole characters within the source.
pub open spec fn span_ok(source: Seq<u8>, s: (usize, usize)) -> bool {
    s.0 <= s.1 <= source.len() && valid_utf8(source.subrange(s.0 as int, s.1 as int))
}

/// The length of a span, or zero for a reversed one.
pub open spec fn span_len(s: (usize, usize)) -> int {
    if s.0 <= s.1 {
        s.1 - s.0
    } else {
        0
    }
}

/// Whether each line of `source[segment..end]`, the current one having
/// started at `segment` and `k` being where the scan stands, is whole
/// characters within the source.
pub open spec fn literal_ok(source: Seq<u8>, segment: usize, k: usize, end: usize) -> bool
    decreases end - k,
{
    if k >= end || k >= source.len() {
        span_ok(source, (segment, end))
    } else if source[k as int] == 10u8 {
        span_ok(source, (segment, k)) && literal_ok(source, (k + 1) as usize, (k + 1) as usize, end)
    } else {
        literal_ok(source, segment, (k + 1) as usize, end)
    }
}

/// Whether a comment is a non-empty stretch of the source that prints as
/// whole characters.
pub open spec fn comment_ok(source: Seq<u8>, c: Comment) -> bool {
    &&& c.start < c.end
    &&& span_ok(source, (c.start, c.end))
    &&& c.embdoc ==> literal_ok(source, c.start, c.start, c.end)
}

/// Whether a node has the children and spans its kind asks for.
pub open spec fn shape_ok(node: SyntaxNode) -> bool {
    let receivers: int = if node.head.0 < node.head.1 {
        1
    } else {
        0
    };
    match node.kind {
        SyntaxKind::Write => node.child_count == 1,
        SyntaxKind::Call(_) | SyntaxKind::Def => node.child_count >= receivers,
        SyntaxKind::Class => receivers == 0 && node.child_count >= 1 + if node.middle.0 < node.middle.1 {
            1int
        } else {
            0int
        },
        SyntaxKind::Module => receivers == 0 && node.child_count >= 1,
        SyntaxKind::Boolean => receivers == 0 && node.child_count == 2,
        SyntaxKind::Array(_) | SyntaxKind::Jump(_) | SyntaxKind::Parentheses | SyntaxKind::ConstantPath => receivers
            == 0,
        _ => true,
    }
}

/// Whether a node's spans are whole characters within the source, a
/// string's content line by line too, and its shape is as its kind asks.
pub open spec fn node_fits(source: Seq<u8>, node: SyntaxNode) -> bool {
    &&& span_ok(source, (node.start, node.end))
    &&& span_ok(source, node.head)
    &&& span_ok(source, node.middle)
    &&& span_ok(source, node.tail)
    &&& node.kind is String ==> literal_ok(source, node.middle.0, node.middle.0, node.middle.1)
    &&& shape_ok(node)
}

/// What laying out a comment can add to each arena, at most.
pub open spec fn note_cost(c: Comment) -> int {
    64 + 4 * span_len((c.start, c.end))
}

/// What laying out the `count` comments from `start` can add, at most.
pub open spec fn notes_cost(notes: Seq<Comment>, start: int, count: int) -> int
    decreases count,
{
    if count <= 0 {
        0
    } else {
        notes_cost(notes, start, count - 1) + if 0 <= start + count - 1 < notes.len() {
            note_cost(notes[start + count - 1])
        } else {
            0
        }
    }
}

/// What laying out node `id`, its comments and its children can add to
/// each arena, at most.
pub open spec fn node_cost(nodes: Seq<SyntaxNode>, children: Seq<usize>, notes: Seq<Comment>, id: int) -> int
    decreases nodes.len() - id, if 0 <= id < nodes.len() {
        nodes[id].child_count + 1
    } else {
        0
    },
{
    if !(0 <= id < nodes.len()) {
        0
    } else {
        let node = nodes[id];
        64 + 4 * span_len((node.start, node.end)) + 4 * span_len(node.middle) + notes_cost(
            notes,
            node.trailing.0 as int,
            node.trailing.1 as int,
        ) + notes_cost(notes, node.body.0 as int, node.body.1 as int) + 2 * children_cost(
            nodes,
            children,
            notes,
            id,
            node.child_count as int,
        )
    }
}

/// What laying out the first `k` children of node `id` can add, at most.
pub open spec fn children_cost(nodes: Seq<SyntaxNode>, children: Seq<usize>, notes: Seq<Comment>, id: int, k: int) -> int
    decreases nodes.len() - id, k,
{
    if !(0 <= id < nodes.len()) || k <= 0 {
        0
    } else {
        let q = nodes[id].children_start + k - 1;
        let here = if 0 <= q < children.len() && id < children[q] < nodes.len() {
            node_cost(nodes, children, notes, children[q] as int)
        } else {
            0
        };
        children_cost(nodes, children, notes, id, k - 1) + here
    }
}

/// What laying out node `id` itself, without the comments that trail it,
/// can add, at most.
pub open spec fn core_cost(nodes: Seq<SyntaxNode>, children: Seq<usize>, notes: Seq<Comment>, id: int) -> int {
    node_cost(nodes, children, notes, id) - notes_cost(notes, nodes[id].trailing.0 as int, nodes[id].trailing.1 as int)
}

/// What laying out a call's receiver can add, at most.
pub open spec fn receiver_cost(nodes: Seq<SyntaxNode>, children: Seq<usize>, notes: Seq<Comment>, id: int) -> int {
    if has_receiver(nodes[id]) {
        children_cost(nodes, children, notes, id, 1)
    } else {
        0
    }
}

/// What laying out a call's arguments, or an array's elements, with the
/// separators between them, can add, at most.
pub open spec fn arguments_cost(nodes: Seq<SyntaxNode>, children: Seq<usize>, notes: Seq<Comment>, id: int) -> int {
    2 * (children_cost(nodes, children, notes, id, nodes[id].child_count as int) - children_cost(
        nodes,
        children,
        notes,
        id,
        if has_receiver(nodes[id]) {
            1
        } else {
            0
        },
    ))
}

/// What laying out a definition's head can add, at most.
pub open spec fn head_cost(nodes: Seq<SyntaxNode>, children: Seq<usize>, notes: Seq<Comment>, id: int) -> int {
    16 + children_cost(nodes, children, notes, id, body_slot(nodes[id]) - nodes[id].children_start)
}

/// The edges a builder holds, built and pending.
pub open spec fn edges(m: BuilderModel) -> int {
    (m.children.len() + m.working.len()) as int
}

/// Whether each of the builder's arenas can take `c` more entries.
pub open spec fn room_for(m: BuilderModel, c: int) -> bool {
    &&& m.docs.len() + c <= LIMIT
    &&& edges(m) + c <= LIMIT
    &&& m.text.len() + c <= LIMIT
}

/// Whether `b` holds at most `c` more entries than `a` in each arena.
pub open spec fn within(a: BuilderModel, b: BuilderModel, c: int) -> bool {
    &&& b.docs.len() <= a.docs.len() + c
    &&& edges(b) <= edges(a) + c
    &&& b.text.len() <= a.text.len() + c
}

/// Comment costs are never negative, and grow with the count.
proof fn lemma_notes_cost(notes: Seq<Comment>, start: int, k: int, n: int)
    requires
        0 <= k <= n,
    ensures
        0 <= notes_cost(notes, start, k) <= notes_cost(notes, start, n),
    decreases n,
{
    if n > 0 {
        if k < n {
            lemma_notes_cost(notes, start, k, n - 1);
        } else {
            lemma_notes_cost(notes, start, n - 1, n - 1);
        }
        if 0 <= start + n - 1 < notes.len() {
            assert(span_len((notes[start + n - 1].start, notes[start + n - 1].end)) >= 0);
        }
    }
}

/// A node costs at least the fixed part and twice its children's.
proof fn lemma_node_cost(nodes: Seq<SyntaxNode>, children: Seq<usize>, notes: Seq<Comment>, id: int)
    requires
        0 <= id < nodes.len(),
    ensures
        node_cost(nodes, children, notes, id) >= 64 + 2 * children_cost(
            nodes,
            children,
            notes,
            id,
            nodes[id].child_count as int,
        ),
        children_cost(nodes, children, notes, id, nodes[id].child_count as int) >= 0,
    decreases nodes.len() - id, nodes[id].child_count + 1,
{
    let node = nodes[id];
    lemma_notes_cost(notes, node.trailing.0 as int, 0, node.trailing.1 as int);
    lemma_notes_cost(notes, node.body.0 as int, 0, node.body.1 as int);
    lemma_children_cost(nodes, children, notes, id, 0, node.child_count as int);
    assert(span_len((node.start, node.end)) >= 0 && span_len(node.middle) >= 0);
}

/// The cost of the first `k + 1` children is that of the first `k` and of
/// child `k`, which costs at least the fixed part.
proof fn lemma_child_step(nodes: Seq<SyntaxNode>, children: Seq<usize>, notes: Seq<Comment>, id: int, k: int)
    requires
        0 <= id < nodes.len(),
        node_wf(nodes, children, notes, id),
        0 <= k < nodes[id].child_count,
    ensures
        children_cost(nodes, children, notes, id, 0) == 0,
        children_cost(nodes, children, notes, id, k + 1) == children_cost(nodes, children, notes, id, k) + node_cost(
            nodes,
            children,
            notes,
            children[nodes[id].children_start + k] as int,
        ),
        node_cost(nodes, children, notes, children[nodes[id].children_start + k] as int) >= 64,
        0 <= children_cost(nodes, children, notes, id, k),
        children_cost(nodes, children, notes, id, k + 1) <= children_cost(
            nodes,
            children,
            notes,
            id,
            nodes[id].child_count as int,
        ),
{
    let q = nodes[id].children_start + k;
    assert(id < children[q] < nodes.len());
    lemma_node_cost(nodes, children, notes, children[q] as int);
    lemma_children_cost(nodes, children, notes, id, k, k + 1);
    lemma_children_cost(nodes, children, notes, id, k + 1, nodes[id].child_count as int);
}

/// What a node itself can add, its own comments and twice its children's
/// included, its fixed part and spans never negative.
proof fn lemma_core_cost(nodes: Seq<SyntaxNode>, children: Seq<usize>, notes: Seq<Comment>, id: int)
    requires
        0 <= id < nodes.len(),
    ensures
        core_cost(nodes, children, notes, id) == 64 + 4 * span_len((nodes[id].start, nodes[id].end)) + 4 * span_len(
            nodes[id].middle,
        ) + notes_cost(notes, nodes[id].body.0 as int, nodes[id].body.1 as int) + 2 * children_cost(
            nodes,
            children,
            notes,
            id,
            nodes[id].child_count as int,
        ),
        core_cost(nodes, children, notes, id) <= node_cost(nodes, children, notes, id),
        span_len((nodes[id].start, nodes[id].end)) >= 0,
        span_len(nodes[id].middle) >= 0,
        notes_cost(notes, nodes[id].body.0 as int, nodes[id].body.1 as int) >= 0,
        children_cost(nodes, children, notes, id, nodes[id].child_count as int) >= 0,
{
    lemma_node_cost(nodes, children, notes, id);
    lemma_notes_cost(notes, nodes[id].body.0 as int, 0, nodes[id].body.1 as int);
    lemma_notes_cost(notes, nodes[id].trailing.0 as int, 0, nodes[id].trailing.1 as int);
}

/// A separated integer is at most twice as long as its digits.
proof fn lemma_grouped_len(digits: Seq<u8>)
    ensures
        crate::literals::grouped(digits).len() <= 2 * digits.len(),
    decreases digits.len(),
{
    if digits.len() > 3 {
        lemma_grouped_len(digits.subrange(0, digits.len() - 3));
    }
}

/// Children's costs are never negative, and grow with the count.
proof fn lemma_children_cost(nodes: Seq<SyntaxNode>, children: Seq<usize>, notes: Seq<Comment>, id: int, k: int, n: int)
    requires
        0 <= id < nodes.len(),
        0 <= k <= n <= nodes[id].child_count,
    ensures
        0 <= children_cost(nodes, children, notes, id, k) <= children_cost(nodes, children, notes, id, n),
    decreases nodes.len() - id, n,
{
    if n > 0 {
        if k < n {
            lemma_children_cost(nodes, children, notes, id, k, n - 1);
        } else {
            lemma_children_cost(nodes, children, notes, id, n - 1, n - 1);
        }
        let q = nodes[id].children_start + n - 1;
        if 0 <= q < children.len() && id < children[q] < nodes.len() {
            lemma_node_cost(nodes, children, notes, children[q] as int);
        }
    }
}

/// The builder's open groups and targets are as they were.
pub open spec fn same_frame(a: BuilderModel, b: BuilderModel) -> bool {
    &&& a.starts.len() == b.starts.len()
    &&& a.depths == b.depths
    &&& a.broken.len() == b.broken.len()
}

// ---------------------------------------------------------------------------
// What laying out a program builds.

/// The builder after the span `start..end` of the source, or unchanged for
/// an empty span.
pub open spec fn with_span(m: BuilderModel, start: usize, end: usize) -> BuilderModel {
    if start == end {
        m
    } else {
        m.with_source(start as u32, end as u32)
    }
}

/// The builder after a line: a forced line also marks every open group
/// broken.
pub open spec fn with_line(m: BuilderModel, line: Line) -> BuilderModel {
    if line.force {
        m.pushed(Doc::Line(line)).pushed(Doc::BreakParent).with_broken(mark_broken(m.broken))
    } else {
        m.pushed(Doc::Line(line))
    }
}

pub open spec fn space_line() -> Line {
    Line { separator: Separator::Space, force: false, indent: true }
}

pub open spec fn hard_line() -> Line {
    Line { separator: Separator::Space, force: true, indent: true }
}

pub open spec fn return_line() -> Line {
    Line { separator: Separator::Space, force: true, indent: false }
}

/// String content from `k` on, the current line having started at
/// `segment`: each line as written, each line feed a line that restarts at
/// column zero.
pub open spec fn with_literal(m: BuilderModel, source: Seq<u8>, segment: usize, k: usize, end: usize) -> BuilderModel
    decreases end - k,
{
    if k >= end || k >= source.len() {
        with_span(m, segment, end)
    } else if source[k as int] == 10u8 {
        with_literal(with_line(with_span(m, segment, k), return_line()), source, (k + 1) as usize, (k + 1) as usize, end)
    } else {
        with_literal(m, source, segment, (k + 1) as usize, end)
    }
}

/// Whether `source[from..to]` holds two or more line feeds.
pub open spec fn blank_line(source: Seq<u8>, from: usize, to: usize) -> bool {
    from <= to <= source.len() && newlines(source.subrange(from as int, to as int)) >= 2
}

/// How many line feeds a byte string holds, told by where they are: at
/// least one exactly when some byte is a line feed, at least two exactly
/// when two different bytes are.
proof fn lemma_line_feeds_at(s: Seq<u8>)
    ensures
        newlines(s) >= 1 <==> exists|a: int| 0 <= a < s.len() && #[trigger] s[a] == 10u8,
        newlines(s) >= 2 <==> exists|a: int, b: int|
            0 <= a < b < s.len() && #[trigger] s[a] == 10u8 && #[trigger] s[b] == 10u8,
    decreases s.len(),
{
    if s.len() > 0 {
        let t = s.drop_last();
        lemma_line_feeds_at(t);
        let n = s.len() - 1;
        if exists|a: int| 0 <= a < s.len() && #[trigger] s[a] == 10u8 {
            let a = choose|a: int| 0 <= a < s.len() && #[trigger] s[a] == 10u8;
            if a < n {
                assert(t[a] == 10u8);
            }
        }
        if exists|a: int, b: int| 0 <= a < b < s.len() && #[trigger] s[a] == 10u8 && #[trigger] s[b] == 10u8 {
            let (a, b) = choose|a: int, b: int| 0 <= a < b < s.len() && #[trigger] s[a] == 10u8 && #[trigger] s[b] == 10u8;
            assert(t[a] == 10u8);
            if b < n {
                assert(t[b] == 10u8);
            }
        }
        if newlines(t) >= 1 {
            let a = choose|a: int| 0 <= a < t.len() && #[trigger] t[a] == 10u8;
            assert(s[a] == 10u8);
            if s.last() == 10u8 {
                assert(s[n] == 10u8);
            }
        }
        if newlines(t) >= 2 {
            let (a, b) = choose|a: int, b: int| 0 <= a < b < t.len() && #[trigger] t[a] == 10u8 && #[trigger] t[b] == 10u8;
            assert(s[a] == 10u8 && s[b] == 10u8);
        }
        if s.last() == 10u8 {
            assert(s[n] == 10u8);
        }
    }
}

/// Between two statements the layout keeps a blank line (a second hard
/// line) exactly when the source between them holds a blank line: two line
/// feeds, at two different places between where the first ends and the
/// second starts.
pub proof fn law_blank_line_between_statements(source: Seq<u8>, from: usize, to: usize)
    requires
        from <= to <= source.len(),
    ensures
        blank_line(source, from, to) <==> exists|a: int, b: int|
            from <= a < b < to && #[trigger] source[a] == 10u8 && #[trigger] source[b] == 10u8,
{
    let s = source.subrange(from as int, to as int);
    lemma_line_feeds_at(s);
    if exists|a: int, b: int| from <= a < b < to && #[trigger] source[a] == 10u8 && #[trigger] source[b] == 10u8 {
        let (a, b) = choose|a: int, b: int| from <= a < b < to && #[trigger] source[a] == 10u8 && #[trigger] source[b] == 10u8;
        assert(s[a - from] == 10u8 && s[b - from] == 10u8);
    }
    if newlines(s) >= 2 {
        let (a, b) = choose|a: int, b: int| 0 <= a < b < s.len() && #[trigger] s[a] == 10u8 && #[trigger] s[b] == 10u8;
        assert(source[a + from] == 10u8 && source[b + from] == 10u8);
    }
}

/// Whether the opening delimiter is `?`, that of a character literal.
pub open spec fn question_mark(source: Seq<u8>, head: (usize, usize)) -> bool {
    head.0 < source.len() && head.1 == head.0 + 1 && source[head.0 as int] == 63u8
}

/// Content between two quote bytes.
pub open spec fn quoted(m: BuilderModel, source: Seq<u8>, quote: u8, middle: (usize, usize)) -> BuilderModel {
    with_literal(m.with_text(seq![quote]), source, middle.0, middle.0, middle.1).with_text(seq![quote])
}

/// The builder after a string literal.
pub open spec fn string_laid(m: BuilderModel, source: Seq<u8>, options: FormatOptions, node: SyntaxNode) -> BuilderModel {
    let content = source.subrange(node.middle.0 as int, node.middle.1 as int);
    match string_form_of(options.quote_style, question_mark(source, node.head), content) {
        StringForm::SingleQuoted => quoted(m, source, 39u8, node.middle),
        StringForm::DoubleQuoted => quoted(m, source, 34u8, node.middle),
        StringForm::Character => match character_form_of(content) {
            CharacterForm::Apostrophe => m.with_text(seq![39u8]).with_text(seq![39u8]).with_text(seq![39u8]),
            CharacterForm::DoubleQuote => m.with_text(seq![39u8]).with_text(seq![92u8]).with_text(seq![34u8]).with_text(
                seq![39u8],
            ),
            CharacterForm::Escape => with_span(m.with_text(seq![63u8]), node.middle.0, node.middle.1),
            CharacterForm::SingleQuoted => quoted(m, source, 39u8, node.middle),
        },
        StringForm::AsWritten => with_span(
            with_literal(with_span(m, node.head.0, node.head.1), source, node.middle.0, node.middle.0, node.middle.1),
            node.tail.0,
            node.tail.1,
        ),
    }
}

/// The builder after an open group.
pub open spec fn group_opened(m: BuilderModel) -> BuilderModel {
    BuilderModel {
        broken: m.broken.push(false),
        depths: m.depths.push(m.starts.len() as usize),
        starts: m.starts.push(m.working.len() as usize),
        ..m
    }
}

/// The builder after its innermost group, opened with its target, closes.
pub open spec fn group_closed(m: BuilderModel) -> BuilderModel {
    (BuilderModel { broken: m.broken.drop_last(), depths: m.depths.drop_last(), ..m.sealed() }).pushed(
        Doc::Group(Group { broken: m.broken.last(), contents: m.sealed_fragment() }),
    )
}

/// The builder after its innermost target closes as an indent.
pub open spec fn indent_closed(m: BuilderModel) -> BuilderModel {
    m.sealed().pushed(Doc::Indent(m.sealed_fragment()))
}

/// The builder after a comment: an embedded document from column zero,
/// its lines as written; any other comment as written.
pub open spec fn comment_laid(m: BuilderModel, source: Seq<u8>, c: Comment) -> BuilderModel {
    if c.embdoc {
        with_literal(m.pushed(Doc::Trim), source, c.start, c.start, c.end)
    } else {
        with_span(m, c.start, c.end)
    }
}

/// The builder after a comment that trails a node: deferred to the end of
/// the line, after a space, or on a line of its own where it was, and
/// breaking every enclosing group.
pub open spec fn trailing_laid(m: BuilderModel, source: Seq<u8>, c: Comment) -> BuilderModel {
    let opened = BuilderModel { starts: m.starts.push(m.working.len() as usize), ..m };
    let led = if c.own_line {
        with_line(opened, hard_line())
    } else {
        opened.with_text(seq![32u8])
    };
    let written = comment_laid(led, source, c);
    let broke = written.pushed(Doc::BreakParent).with_broken(mark_broken(written.broken));
    broke.sealed().pushed(Doc::LineSuffix { priority: COMMENT_PRIORITY, contents: broke.sealed_fragment() })
}

/// The builder after comments trailing a node, one after the other.
pub open spec fn trailings_laid(m: BuilderModel, source: Seq<u8>, notes: Seq<Comment>) -> BuilderModel
    decreases notes.len(),
{
    if notes.len() == 0 {
        m
    } else {
        trailing_laid(trailings_laid(m, source, notes.drop_last()), source, notes.last())
    }
}

/// The comments of `notes` in the range `range` (start and count), or none
/// where it lies outside.
pub open spec fn notes_in(notes: Seq<Comment>, range: (usize, usize)) -> Seq<Comment> {
    if range.0 + range.1 <= notes.len() {
        notes.subrange(range.0 as int, range.0 + range.1)
    } else {
        Seq::empty()
    }
}

/// Whether a call has a receiver.
pub open spec fn has_receiver(node: SyntaxNode) -> bool {
    node.head.0 < node.head.1
}

/// Whether a call's arguments are in parentheses.
pub open spec fn has_parens(node: SyntaxNode) -> bool {
    node.tail.0 < node.tail.1
}

/// Where a call's arguments start among its children.
pub open spec fn first_argument(node: SyntaxNode) -> int {
    node.children_start + if has_receiver(node) {
        1int
    } else {
        0int
    }
}

/// How many arguments a call has.
pub open spec fn argument_count(node: SyntaxNode) -> int {
    node.children_start + node.child_count - first_argument(node)
}

/// A call with arguments and no parentheses: `puts x`.
pub open spec fn is_command(node: SyntaxNode) -> bool {
    !has_parens(node) && argument_count(node) > 0
}

/// A call that continues a chain of calls: `.name` or `.name(args)` on a
/// receiver.
pub open spec fn chain_member(node: SyntaxNode) -> bool {
    has_receiver(node) && !is_command(node)
}

/// How many chained calls end at node `id`.
pub open spec fn chain_weight(nodes: Seq<SyntaxNode>, children: Seq<usize>, id: int) -> nat
    decreases nodes.len() - id,
{
    if 0 <= id < nodes.len() && nodes[id].kind is Call && chain_member(nodes[id]) {
        let node = nodes[id];
        if node.children_start < children.len() && id < children[node.children_start as int] < nodes.len() {
            1 + chain_weight(nodes, children, children[node.children_start as int] as int)
        } else {
            1
        }
    } else {
        0
    }
}

/// Whether the call operator is `&.`.
pub open spec fn safe_navigation(source: Seq<u8>, head: (usize, usize)) -> bool {
    head.1 == head.0 + 2 && head.1 <= source.len() && source[head.0 as int] == 38u8 && source[head.0 + 1] == 46u8
}

/// The builder after the call operator: `&.` as written, any other as `.`.
pub open spec fn with_operator(m: BuilderModel, source: Seq<u8>, head: (usize, usize)) -> BuilderModel {
    if safe_navigation(source, head) {
        m.with_text(seq![38u8]).with_text(seq![46u8])
    } else {
        m.with_text(seq![46u8])
    }
}

pub open spec fn soft_line() -> Line {
    Line { separator: Separator::Empty, force: false, indent: true }
}

/// The builder with a new target open.
pub open spec fn target_pushed(m: BuilderModel) -> BuilderModel {
    BuilderModel { starts: m.starts.push(m.working.len() as usize), ..m }
}

/// The builder after a comma that prints only where the group breaks.
pub open spec fn comma_if_broken(m: BuilderModel) -> BuilderModel {
    let written = target_pushed(m).with_text(seq![44u8]);
    let broken = written.sealed_fragment();
    let popped = written.sealed();
    if popped.broken.last() {
        popped.pushed(Doc::IfBreak { broken, flat: Fragment { start: 0, end: 0 } })
    } else {
        let flat = target_pushed(popped);
        flat.sealed().pushed(Doc::IfBreak { broken, flat: flat.sealed_fragment() })
    }
}

/// Whether the call, as a command, keeps its arguments at the enclosing
/// indent: a name configured so, on a receiver.
pub open spec fn unaligned_command(source: Seq<u8>, options: FormatOptions, node: SyntaxNode) -> bool {
    has_receiver(node) && directive_bytes(options.unaligned_command_calls@).contains(
        source.subrange(node.middle.0 as int, node.middle.1 as int),
    )
}

/// Whether a command's sole argument is a bracketed call that breaks at
/// the enclosing indent under the consistent alignment.
pub open spec fn consistent_sole_argument(nodes: Seq<SyntaxNode>, children: Seq<usize>, options: FormatOptions, node: SyntaxNode) -> bool {
    let argument = nodes[children[first_argument(node)] as int];
    &&& options.delimited_argument_alignment != DelimitedArgumentAlignment::Aligned
    &&& argument_count(node) == 1
    &&& argument.kind is Call
    &&& has_parens(argument)
    &&& argument_count(argument) > 0
}

/// Whether a trailing comma may follow the call's last argument: not after
/// a command.
pub open spec fn allows_trailing_comma(nodes: Seq<SyntaxNode>, children: Seq<usize>, node: SyntaxNode) -> bool {
    let last = nodes[children[node.children_start + node.child_count - 1] as int];
    !(last.kind is Call && is_command(last))
}

/// Whether node `id`'s children and comments lie where they should.
pub open spec fn call_wf(nodes: Seq<SyntaxNode>, children: Seq<usize>, id: int) -> bool {
    let node = nodes[id];
    &&& node.children_start + node.child_count <= children.len()
    &&& first_argument(node) <= node.children_start + node.child_count
    &&& forall|k: int|
        node.children_start <= k < node.children_start + node.child_count ==> id < #[trigger] children[k]
            < nodes.len()
}

/// The builder, and the kinds met, after a call's receiver, operator and
/// name.
pub open spec fn named_laid(
    m: BuilderModel,
    nodes: Seq<SyntaxNode>,
    children: Seq<usize>,
    notes: Seq<Comment>,
    source: Seq<u8>,
    options: FormatOptions,
    id: int,
) -> (BuilderModel, Seq<u32>)
    decreases nodes.len() - id, entry_bound(children, notes),
{
    if !(0 <= id < nodes.len() && call_wf(nodes, children, id)) {
        (m, Seq::empty())
    } else {
        let node = nodes[id];
        let (received, kinds) = if has_receiver(node) {
            let (r, k) = node_laid(m, nodes, children, notes, source, options, children[node.children_start as int] as int);
            (with_operator(r, source, node.head), k)
        } else {
            (m, Seq::empty())
        };
        (with_span(received, node.middle.0, node.middle.1), kinds)
    }
}

/// The builder, and the kinds met, after a call's arguments from the
/// `k`th on, separated by a comma and a line.
pub open spec fn arguments_laid(
    m: BuilderModel,
    nodes: Seq<SyntaxNode>,
    children: Seq<usize>,
    notes: Seq<Comment>,
    source: Seq<u8>,
    options: FormatOptions,
    id: int,
    k: int,
) -> (BuilderModel, Seq<u32>)
    decreases nodes.len() - id, argument_count(nodes[id]) - k,
{
    if !(0 <= id < nodes.len() && call_wf(nodes, children, id) && 0 <= k < argument_count(nodes[id])) {
        (m, Seq::empty())
    } else {
        let node = nodes[id];
        let separated = if k > 0 {
            with_line(m.with_text(seq![44u8]), space_line())
        } else {
            m
        };
        let (laid, kinds) = node_laid(
            separated,
            nodes,
            children,
            notes,
            source,
            options,
            children[first_argument(node) + k] as int,
        );
        let (rest, more) = arguments_laid(laid, nodes, children, notes, source, options, id, k + 1);
        (rest, kinds + more)
    }
}

/// The builder, and the kinds met, after a method call: a command as a
/// group of its receiver and name, a space, and its arguments aligned under
/// the first (at the enclosing indent where the call is configured so, its
/// sole argument is a bracketed call under the consistent alignment, or the
/// receiver leaves them too far right; a command whose arguments would
/// align beyond 2^32 columns is reported); parenthesized arguments as a group
/// that breaks after `(` and before `)`, with a trailing comma when asked;
/// a chain of calls at the threshold, or on a receiver with a trailing
/// comment, copied as written and reported.
pub open spec fn call_laid(
    m: BuilderModel,
    nodes: Seq<SyntaxNode>,
    children: Seq<usize>,
    notes: Seq<Comment>,
    source: Seq<u8>,
    options: FormatOptions,
    id: int,
) -> (BuilderModel, Seq<u32>)
    decreases nodes.len() - id, entry_bound(children, notes) + 1,
{
    if !(0 <= id < nodes.len() && call_wf(nodes, children, id) && nodes[id].kind is Call) {
        (m, Seq::empty())
    } else {
        let node = nodes[id];
        if chain_member(node) && (chain_weight(nodes, children, id) >= options.chain_break_threshold
            || nodes[children[node.children_start as int] as int].trailing.1 > 0) {
            (with_span(m, node.start, node.end), seq![node.kind->Call_0])
        } else if is_command(node) {
            let opened = group_opened(m);
            let (named, k1) = named_laid(opened, nodes, children, notes, source, options, id);
            let spaced = named.with_text(seq![32u8]);
            let width = trail_working(spaced, source, spaced.starts.last() as int, spaced.working.len() as int, 0);
            let aligned = !(unaligned_command(source, options, node) || options.max_command_alignment == 0 || (
            has_receiver(node) && width > options.max_command_alignment) || consistent_sole_argument(
                nodes,
                children,
                options,
                node,
            ));
            let prefix = if aligned && width <= u32::MAX {
                width
            } else {
                0usize
            };
            let overflow: Seq<u32> = if aligned && width > u32::MAX {
                seq![node.kind->Call_0]
            } else {
                Seq::empty()
            };
            let (argued, k2) = arguments_laid(target_pushed(spaced), nodes, children, notes, source, options, id, 0);
            let closed = argued.sealed().pushed(Doc::Align(prefix as u32, argued.sealed_fragment()));
            (group_closed(closed), k1 + overflow + k2)
        } else {
            let (named, k1) = named_laid(m, nodes, children, notes, source, options, id);
            if !has_parens(node) {
                (named, k1)
            } else if argument_count(node) == 0 {
                (named.with_text(seq![40u8]).with_text(seq![41u8]), k1)
            } else {
                let opened = with_line(target_pushed(group_opened(named).with_text(seq![40u8])), soft_line());
                let (argued, k2) = arguments_laid(opened, nodes, children, notes, source, options, id, 0);
                let commaed = if options.trailing_commas && allows_trailing_comma(nodes, children, node) {
                    comma_if_broken(argued)
                } else {
                    argued
                };
                let closed = with_line(indent_closed(commaed), soft_line()).with_text(seq![41u8]);
                (group_closed(closed), k1 + k2)
            }
        }
    }
}

/// Whether an array might print in a `%w` or `%i` form: two or more
/// elements, all strings or literals printed as written, with the form
/// preferred.
pub open spec fn percent_candidate(nodes: Seq<SyntaxNode>, children: Seq<usize>, options: FormatOptions, node: SyntaxNode) -> bool {
    &&& options.percent_arrays == PercentArrays::Prefer
    &&& node.child_count >= 2
    &&& forall|k: int|
        node.children_start <= k < node.children_start + node.child_count ==> {
            let kind = #[trigger] nodes[children[k] as int].kind;
            kind is String || kind is Verbatim
        }
}

/// The builder, and the kinds met, after an array: `[` and `]` around the
/// elements, a group that breaks after `[`, between elements and before
/// `]`, with a trailing comma when asked; an empty array as `[]`, opening
/// across two lines where its line is too wide. An array that may take a
/// `%w` or `%i` form is copied as written and reported.
pub open spec fn array_laid(
    m: BuilderModel,
    nodes: Seq<SyntaxNode>,
    children: Seq<usize>,
    notes: Seq<Comment>,
    source: Seq<u8>,
    options: FormatOptions,
    id: int,
) -> (BuilderModel, Seq<u32>)
    decreases nodes.len() - id, entry_bound(children, notes) + 1,
{
    if !(0 <= id < nodes.len() && call_wf(nodes, children, id) && nodes[id].kind is Array && !has_receiver(nodes[id])) {
        (m, Seq::empty())
    } else {
        let node = nodes[id];
        if percent_candidate(nodes, children, options, node) {
            (with_span(m, node.start, node.end), seq![node.kind->Array_0])
        } else if node.child_count == 0 {
            (group_closed(with_line(group_opened(m).with_text(seq![91u8]), soft_line()).with_text(seq![93u8])), Seq::empty())
        } else {
            let opened = with_line(target_pushed(group_opened(m).with_text(seq![91u8])), soft_line());
            let (listed, kinds) = arguments_laid(opened, nodes, children, notes, source, options, id, 0);
            let commaed = if options.trailing_commas {
                comma_if_broken(listed)
            } else {
                listed
            };
            let closed = with_line(indent_closed(commaed), soft_line()).with_text(seq![93u8]);
            (group_closed(closed), kinds)
        }
    }
}

/// The builder after ASCII `bytes`, one text byte after another.
pub open spec fn with_bytes(m: BuilderModel, bytes: Seq<u8>) -> BuilderModel
    decreases bytes.len(),
{
    if bytes.len() == 0 {
        m
    } else {
        with_bytes(m, bytes.drop_last()).with_text(seq![bytes.last()])
    }
}

/// The keyword a definition starts with, and the space after it.
pub open spec fn keyword_bytes(kind: SyntaxKind) -> Seq<u8> {
    match kind {
        SyntaxKind::Class => seq![99u8, 108u8, 97u8, 115u8, 115u8, 32u8],
        SyntaxKind::Module => seq![109u8, 111u8, 100u8, 117u8, 108u8, 101u8, 32u8],
        _ => seq![100u8, 101u8, 102u8, 32u8],
    }
}

/// Where a definition's body would stand among its children.
pub open spec fn body_slot(node: SyntaxNode) -> int {
    match node.kind {
        SyntaxKind::Class => node.children_start + 1 + if node.middle.0 < node.middle.1 {
            1int
        } else {
            0int
        },
        SyntaxKind::Module => node.children_start + 1,
        _ => first_argument(node),
    }
}

/// The builder, and the kinds met, after a definition's head: the keyword,
/// then a class or module name (and ` < ` and the superclass), or a
/// method's receiver and `.`, its name and any empty parentheses.
pub open spec fn definition_head(
    m: BuilderModel,
    nodes: Seq<SyntaxNode>,
    children: Seq<usize>,
    notes: Seq<Comment>,
    source: Seq<u8>,
    options: FormatOptions,
    id: int,
) -> (BuilderModel, Seq<u32>)
    decreases nodes.len() - id, entry_bound(children, notes),
{
    if !(0 <= id < nodes.len() && call_wf(nodes, children, id) && body_slot(nodes[id]) <= nodes[id].children_start
        + nodes[id].child_count) {
        (m, Seq::empty())
    } else {
        let node = nodes[id];
        let keyword = with_bytes(m, keyword_bytes(node.kind));
        match node.kind {
            SyntaxKind::Def => {
                let (received, kinds) = if has_receiver(node) {
                    let (r, k) = node_laid(keyword, nodes, children, notes, source, options, children[node.children_start as int] as int);
                    (r.with_text(seq![46u8]), k)
                } else {
                    (keyword, Seq::empty())
                };
                let named = with_span(received, node.middle.0, node.middle.1);
                (if has_parens(node) {
                    named.with_text(seq![40u8]).with_text(seq![41u8])
                } else {
                    named
                }, kinds)
            },
            _ => if node.child_count == 0 {
                (keyword, Seq::empty())
            } else {
                let (named, kinds) = node_laid(keyword, nodes, children, notes, source, options, children[node.children_start as int] as int);
                if node.kind is Class && node.middle.0 < node.middle.1 {
                    let (sup, more) = node_laid(
                        with_bytes(named, seq![32u8, 60u8, 32u8]),
                        nodes,
                        children,
                        notes,
                        source,
                        options,
                        children[node.children_start + 1] as int,
                    );
                    (sup, kinds + more)
                } else {
                    (named, kinds)
                }
            }
        }
    }
}

/// The builder, and the kinds met, after a definition: its head, then its
/// body indented on lines of its own, then `end` on a line of its own.
pub open spec fn definition_laid(
    m: BuilderModel,
    nodes: Seq<SyntaxNode>,
    children: Seq<usize>,
    notes: Seq<Comment>,
    source: Seq<u8>,
    options: FormatOptions,
    id: int,
) -> (BuilderModel, Seq<u32>)
    decreases nodes.len() - id, entry_bound(children, notes) + 1,
{
    if !(0 <= id < nodes.len() && call_wf(nodes, children, id) && body_slot(nodes[id]) <= nodes[id].children_start
        + nodes[id].child_count) {
        (m, Seq::empty())
    } else {
        let node = nodes[id];
        let (head, kinds) = definition_head(m, nodes, children, notes, source, options, id);
        let (bodied, more) = if body_slot(node) < node.children_start + node.child_count {
            let (b, k) = node_laid(
                with_line(target_pushed(head), hard_line()),
                nodes,
                children,
                notes,
                source,
                options,
                children[body_slot(node)] as int,
            );
            (indent_closed(b), k)
        } else {
            (head, Seq::empty())
        };
        (with_bytes(with_line(bodied, hard_line()), seq![101u8, 110u8, 100u8]), kinds + more)
    }
}

/// The builder, and the kinds met, after a constant path: the parent,
/// `::` and the name.
pub open spec fn constant_path_laid(
    m: BuilderModel,
    nodes: Seq<SyntaxNode>,
    children: Seq<usize>,
    notes: Seq<Comment>,
    source: Seq<u8>,
    options: FormatOptions,
    id: int,
) -> (BuilderModel, Seq<u32>)
    decreases nodes.len() - id, entry_bound(children, notes) + 1,
{
    if !(0 <= id < nodes.len() && call_wf(nodes, children, id)) {
        (m, Seq::empty())
    } else {
        let node = nodes[id];
        let (parented, kinds) = if node.child_count > 0 {
            node_laid(m, nodes, children, notes, source, options, children[node.children_start as int] as int)
        } else {
            (m, Seq::empty())
        };
        (with_span(with_bytes(parented, seq![58u8, 58u8]), node.middle.0, node.middle.1), kinds)
    }
}

/// The builder, and the kinds met, after a boolean operation: the left
/// operand, a space and the operator, then the right operand on an indented
/// line of its own where its group breaks.
pub open spec fn boolean_laid(
    m: BuilderModel,
    nodes: Seq<SyntaxNode>,
    children: Seq<usize>,
    notes: Seq<Comment>,
    source: Seq<u8>,
    options: FormatOptions,
    id: int,
) -> (BuilderModel, Seq<u32>)
    decreases nodes.len() - id, entry_bound(children, notes) + 1,
{
    if !(0 <= id < nodes.len() && call_wf(nodes, children, id) && nodes[id].child_count == 2) {
        (m, Seq::empty())
    } else {
        let node = nodes[id];
        let (left, k1) = node_laid(m, nodes, children, notes, source, options, children[node.children_start as int] as int);
        let opened = with_line(
            target_pushed(group_opened(with_span(left.with_text(seq![32u8]), node.middle.0, node.middle.1))),
            space_line(),
        );
        let (right, k2) = node_laid(opened, nodes, children, notes, source, options, children[node.children_start + 1] as int);
        (group_closed(indent_closed(right)), k1 + k2)
    }
}

/// The builder after a choice that prints `broken` where the group breaks
/// and `flat` where it does not. Where the group is already broken, the
/// flat branch is built and dropped, and the groups' broken flags are put
/// back as they were before it.
pub open spec fn if_break_bytes(m: BuilderModel, broken: Seq<u8>, flat: Seq<u8>) -> BuilderModel {
    let written = with_bytes(target_pushed(m), broken);
    let chosen = written.sealed_fragment();
    let popped = written.sealed();
    let built = with_bytes(target_pushed(popped), flat);
    if popped.broken.last() {
        let dropped = built.sealed();
        dropped.with_broken(restored(dropped.broken, popped.broken)).pushed(
            Doc::IfBreak { broken: chosen, flat: Fragment { start: 0, end: 0 } },
        )
    } else {
        built.sealed().pushed(Doc::IfBreak { broken: chosen, flat: built.sealed_fragment() })
    }
}

/// The builder, and the kinds met, after `return`, `break` or `next`: the
/// keyword, then a sole argument after a space, or in parentheses on an
/// indented line where its group breaks; several arguments after a space,
/// or in brackets one per line where the group breaks. A sole array
/// argument is copied as written and reported.
pub open spec fn jump_laid(
    m: BuilderModel,
    nodes: Seq<SyntaxNode>,
    children: Seq<usize>,
    notes: Seq<Comment>,
    source: Seq<u8>,
    options: FormatOptions,
    id: int,
) -> (BuilderModel, Seq<u32>)
    decreases nodes.len() - id, entry_bound(children, notes) + 1,
{
    if !(0 <= id < nodes.len() && call_wf(nodes, children, id) && !has_receiver(nodes[id]) && nodes[id].kind is Jump) {
        (m, Seq::empty())
    } else {
        let node = nodes[id];
        let keyword = with_span(m, node.middle.0, node.middle.1);
        if node.child_count == 0 {
            (keyword, Seq::empty())
        } else if node.child_count == 1 {
            let argument = children[node.children_start as int] as int;
            if nodes[argument].kind is Array {
                (with_span(m, node.start, node.end), seq![node.kind->Jump_0])
            } else {
                let opened = with_line(target_pushed(if_break_bytes(group_opened(keyword), seq![40u8], seq![32u8])), soft_line());
                let (laid, kinds) = node_laid(opened, nodes, children, notes, source, options, argument);
                let closed = if_break_bytes(with_line(indent_closed(laid), soft_line()), seq![41u8], Seq::empty());
                (group_closed(closed), kinds)
            }
        } else {
            let opened = with_line(
                target_pushed(if_break_bytes(group_opened(keyword), seq![32u8, 91u8], seq![32u8])),
                soft_line(),
            );
            let (laid, kinds) = arguments_laid(opened, nodes, children, notes, source, options, id, 0);
            let closed = if_break_bytes(with_line(indent_closed(laid), soft_line()), seq![93u8], Seq::empty());
            (group_closed(closed), kinds)
        }
    }
}

/// The builder, and the kinds met, after parentheses: `()` where empty,
/// else a group that breaks after `(` and before `)`, the contents indented.
pub open spec fn parentheses_laid(
    m: BuilderModel,
    nodes: Seq<SyntaxNode>,
    children: Seq<usize>,
    notes: Seq<Comment>,
    source: Seq<u8>,
    options: FormatOptions,
    id: int,
) -> (BuilderModel, Seq<u32>)
    decreases nodes.len() - id, entry_bound(children, notes) + 1,
{
    if !(0 <= id < nodes.len() && call_wf(nodes, children, id)) {
        (m, Seq::empty())
    } else {
        let node = nodes[id];
        if node.child_count == 0 {
            (with_bytes(m, seq![40u8, 41u8]), Seq::empty())
        } else {
            let opened = with_line(target_pushed(with_bytes(group_opened(m), seq![40u8])), soft_line());
            let (laid, kinds) = node_laid(opened, nodes, children, notes, source, options, children[node.children_start as int] as int);
            (group_closed(with_bytes(with_line(indent_closed(laid), soft_line()), seq![41u8])), kinds)
        }
    }
}

/// A bound above every count of entries, for the measure of the layout.
pub open spec fn entry_bound(children: Seq<usize>, notes: Seq<Comment>) -> nat {
    children.len() + notes.len() + 1
}

/// The builder, and the kinds of nodes with no layout met, after node `id`
/// with the comments that trail it.
pub open spec fn node_laid(
    m: BuilderModel,
    nodes: Seq<SyntaxNode>,
    children: Seq<usize>,
    notes: Seq<Comment>,
    source: Seq<u8>,
    options: FormatOptions,
    id: int,
) -> (BuilderModel, Seq<u32>)
    decreases nodes.len() - id, entry_bound(children, notes) + 3,
{
    if !(0 <= id < nodes.len()) {
        (m, Seq::empty())
    } else {
        let (core, kinds) = core_laid(m, nodes, children, notes, source, options, id);
        (trailings_laid(core, source, notes_in(notes, nodes[id].trailing)), kinds)
    }
}

/// Whether an assigned value stays beside the operator when the assignment
/// breaks: an array, or a call that continues such a value (with any
/// breakable call, when the same-line layout is asked for).
pub open spec fn stays_inline(nodes: Seq<SyntaxNode>, children: Seq<usize>, options: FormatOptions, id: int) -> bool
    decreases nodes.len() - id,
{
    if !(0 <= id < nodes.len()) {
        false
    } else {
        let node = nodes[id];
        match node.kind {
            SyntaxKind::Array(_) => true,
            SyntaxKind::Call(_) => if options.multiline_assignment_layout == MultilineAssignmentLayout::SameLine {
                !is_command(node) && (has_parens(node) || has_receiver(node))
            } else {
                &&& has_receiver(node)
                &&& !is_command(node)
                &&& node.children_start < children.len()
                &&& id < children[node.children_start as int] < nodes.len()
                &&& stays_inline(nodes, children, options, children[node.children_start as int] as int)
            },
            _ => false,
        }
    }
}

/// The builder, and the kinds met, after node `id` itself: a statement list
/// as its statements and own-line comments in source order, on lines of
/// their own, with at most one blank line kept between two; an assignment
/// as a group of the target, a space, the operator and the value, beside
/// the operator where it stays inline and on an indented line otherwise; an integer with its separators when asked; a string
/// with its delimiters chosen by the quote style; anything else as written,
/// the kind of a node with no layout being listed.
pub open spec fn core_laid(
    m: BuilderModel,
    nodes: Seq<SyntaxNode>,
    children: Seq<usize>,
    notes: Seq<Comment>,
    source: Seq<u8>,
    options: FormatOptions,
    id: int,
) -> (BuilderModel, Seq<u32>)
    decreases nodes.len() - id, entry_bound(children, notes) + 2,
{
    if !(0 <= id < nodes.len()) {
        (m, Seq::empty())
    } else {
        let node = nodes[id];
        match node.kind {
            SyntaxKind::Call(_) => call_laid(m, nodes, children, notes, source, options, id),
            SyntaxKind::Array(_) => array_laid(m, nodes, children, notes, source, options, id),
            SyntaxKind::ConstantPath => constant_path_laid(m, nodes, children, notes, source, options, id),
            SyntaxKind::Boolean => boolean_laid(m, nodes, children, notes, source, options, id),
            SyntaxKind::Jump(_) => jump_laid(m, nodes, children, notes, source, options, id),
            SyntaxKind::Parentheses => parentheses_laid(m, nodes, children, notes, source, options, id),
            SyntaxKind::Class | SyntaxKind::Module | SyntaxKind::Def => definition_laid(
                m,
                nodes,
                children,
                notes,
                source,
                options,
                id,
            ),
            SyntaxKind::Statements => if node.children_start + node.child_count <= children.len() && node.body.0
                + node.body.1 <= notes.len() {
                entries_laid(m, nodes, children, notes, source, options, id, 0, 0, None)
            } else {
                (m, Seq::empty())
            },
            SyntaxKind::Write => if node.children_start < children.len() && id < children[node.children_start as int]
                < nodes.len() {
                let opened = with_span(
                    with_span(group_opened(m), node.head.0, node.head.1).with_text(seq![32u8]),
                    node.middle.0,
                    node.middle.1,
                );
                let value_id = children[node.children_start as int] as int;
                if stays_inline(nodes, children, options, value_id) {
                    let (value, kinds) = node_laid(opened.with_text(seq![32u8]), nodes, children, notes, source, options, value_id);
                    (group_closed(value), kinds)
                } else {
                    let targeted = with_line(
                        BuilderModel { starts: opened.starts.push(opened.working.len() as usize), ..opened },
                        space_line(),
                    );
                    let (value, kinds) = node_laid(targeted, nodes, children, notes, source, options, value_id);
                    (group_closed(indent_closed(value)), kinds)
                }
            } else {
                (m, Seq::empty())
            },
            SyntaxKind::Integer => match integer_rewrite(
                options.normalize_number_separators,
                source.subrange(node.start as int, node.end as int),
            ) {
                Some(bytes) => (m.with_text(bytes), Seq::empty()),
                None => (with_span(m, node.start, node.end), Seq::empty()),
            },
            SyntaxKind::String => (string_laid(m, source, options, node), Seq::empty()),
            SyntaxKind::Verbatim => (with_span(m, node.start, node.end), Seq::empty()),
            SyntaxKind::Unsupported(kind) => (with_span(m, node.start, node.end), seq![kind]),
        }
    }
}

/// Whether the next entry of statement list `id`, after `i` statements and
/// `j` own-line comments, is a statement: statements and comments merge by
/// where they start, a statement first where both start at once.
pub open spec fn statement_next(
    nodes: Seq<SyntaxNode>,
    children: Seq<usize>,
    notes: Seq<Comment>,
    id: int,
    i: int,
    j: int,
) -> bool {
    let node = nodes[id];
    i < node.child_count && (j >= node.body.1 || nodes[children[node.children_start + i] as int].start
        <= notes[node.body.0 + j].start)
}

/// The builder, and the kinds met, after the entries of statement list `id`
/// from its `i`th statement and `j`th own-line comment on; `previous` is
/// where the entry before them ended.
pub open spec fn entries_laid(
    m: BuilderModel,
    nodes: Seq<SyntaxNode>,
    children: Seq<usize>,
    notes: Seq<Comment>,
    source: Seq<u8>,
    options: FormatOptions,
    id: int,
    i: int,
    j: int,
    previous: Option<usize>,
) -> (BuilderModel, Seq<u32>)
    decreases nodes.len() - id, (nodes[id].child_count - i) + (nodes[id].body.1 - j),
{
    if !(0 <= id < nodes.len() && 0 <= i <= nodes[id].child_count && 0 <= j <= nodes[id].body.1
        && nodes[id].children_start + nodes[id].child_count <= children.len() && nodes[id].body.0 + nodes[id].body.1
        <= notes.len() && (i < nodes[id].child_count || j < nodes[id].body.1)) {
        (m, Seq::empty())
    } else {
        let node = nodes[id];
        let is_node = statement_next(nodes, children, notes, id, i, j);
        let child = children[node.children_start + i] as int;
        let note = notes[node.body.0 + j];
        let entry_start = if is_node {
            nodes[child].start
        } else {
            note.start
        };
        let separated = match previous {
            Some(end) => {
                let lined = with_line(m, hard_line());
                if blank_line(source, end, entry_start) {
                    with_line(lined, hard_line())
                } else {
                    lined
                }
            },
            None => m,
        };
        if is_node {
            if !(id < child < nodes.len()) {
                (m, Seq::empty())
            } else {
                let (laid, kinds) = node_laid(separated, nodes, children, notes, source, options, child);
                let (rest, more) = entries_laid(laid, nodes, children, notes, source, options, id, i + 1, j, Some(nodes[child].end));
                (rest, kinds + more)
            }
        } else {
            entries_laid(
                comment_laid(separated, source, note),
                nodes,
                children,
                notes,
                source,
                options,
                id,
                i,
                j + 1,
                Some(note.end),
            )
        }
    }
}

/// An empty builder.
pub open spec fn empty_builder() -> BuilderModel {
    BuilderModel {
        docs: Seq::empty(),
        children: Seq::empty(),
        text: Seq::empty(),
        working: Seq::empty(),
        broken: seq![false],
        depths: seq![0usize],
        starts: seq![0usize],
    }
}

/// The builder, and the kinds met, after the program: its statement list,
/// then the newline that ends the file.
pub open spec fn program_laid(syntax: &Syntax, source: Seq<u8>, options: FormatOptions) -> (BuilderModel, Seq<u32>) {
    let (m, kinds) = node_laid(empty_builder(), syntax.nodes@, syntax.children@, syntax.notes@, source, options, 0);
    (with_line(m, hard_line()), kinds)
}

/// The document a finished builder holds.
pub open spec fn finished(m: BuilderModel) -> DocModel {
    DocModel {
        docs: m.docs,
        children: m.children + m.working,
        text: m.text,
        root: Fragment { start: m.children.len() as u32, end: (m.children.len() + m.working.len()) as u32 },
    }
}

/// A step that adds no source span keeps every span within the source.
proof fn lemma_fit_kept(a: BuilderModel, b: BuilderModel, source: Seq<u8>)
    requires
        builder_sources_fit(a, source),
        forall|i: int|
            0 <= i < b.docs.len() ==> match #[trigger] b.docs[i] {
                crate::doc::Doc::Source(_) => i < a.docs.len() && b.docs[i] == a.docs[i],
                _ => true,
            },
    ensures
        builder_sources_fit(b, source),
{
    assert forall|i: int| 0 <= i < b.docs.len() implies match #[trigger] b.docs[i] {
        crate::doc::Doc::Source(s) => s.start <= s.end <= source.len() && valid_utf8(
            source.subrange(s.start as int, s.end as int),
        ),
        _ => true,
    } by {
        match b.docs[i] {
            crate::doc::Doc::Source(_) => {
                assert(a.docs[i] == b.docs[i]);
            },
            _ => {},
        }
    }
}

/// Appending a source span that is valid text keeps every span within the
/// source, also where it extends the span before it.
proof fn lemma_fit_source(a: BuilderModel, source: Seq<u8>, start: u32, end: u32)
    requires
        a.wf(),
        builder_sources_fit(a, source),
        start < end <= source.len(),
        valid_utf8(source.subrange(start as int, end as int)),
    ensures
        builder_sources_fit(a.with_source(start, end), source),
{
    let b = a.with_source(start, end);
    if a.ends_with_span(false, start as int) {
        let last = a.working.last() as int;
        let s = a.last_span();
        assert(a.docs[last] == crate::doc::Doc::Source(s));
        let left = source.subrange(s.start as int, start as int);
        let right = source.subrange(start as int, end as int);
        assert(left + right =~= source.subrange(s.start as int, end as int));
        crate::unicode::lemma_valid_concat(left, right);
        assert forall|i: int| 0 <= i < b.docs.len() implies match #[trigger] b.docs[i] {
            crate::doc::Doc::Source(t) => t.start <= t.end <= source.len() && valid_utf8(
                source.subrange(t.start as int, t.end as int),
            ),
            _ => true,
        } by {
            if i != last {
                assert(b.docs[i] == a.docs[i]);
            }
        }
    } else {
        assert forall|i: int| 0 <= i < b.docs.len() implies match #[trigger] b.docs[i] {
            crate::doc::Doc::Source(t) => t.start <= t.end <= source.len() && valid_utf8(
                source.subrange(t.start as int, t.end as int),
            ),
            _ => true,
        } by {
            if i < a.docs.len() {
                assert(b.docs[i] == a.docs[i]);
            }
        }
    }
}

/// Appends `source[start..end]`, which must be whole characters.
fn emit_source(b: &mut Builder, source: &[u8], start: usize, end: usize) -> (r: Result<(), LayoutError>)
    requires
        old(b)@.wf(),
        builder_sources_fit(old(b)@, source@),
        source@.len() <= LIMIT,
        span_ok(source@, (start, end)),
        room_for(old(b)@, 1),
    ensures
        r is Ok,
        final(b)@.wf() && builder_sources_fit(final(b)@, source@) && same_frame(old(b)@, final(b)@),
        final(b)@ == with_span(old(b)@, start, end),
        within(old(b)@, final(b)@, 1),
{
    if start < end {
        let ghost before = b@;
        b.source(start, end);
        proof {
            lemma_fit_source(before, source@, start as u32, end as u32);
        }
    }
    Ok(())
}

/// Appends an ASCII byte as text.
fn emit_byte(b: &mut Builder, source: &[u8], byte: u8) -> (r: Result<(), LayoutError>)
    requires
        old(b)@.wf(),
        builder_sources_fit(old(b)@, source@),
        byte < 128,
        room_for(old(b)@, 1),
    ensures
        r is Ok,
        final(b)@.wf() && builder_sources_fit(final(b)@, source@) && same_frame(old(b)@, final(b)@),
        final(b)@ == old(b)@.with_text(seq![byte]),
        within(old(b)@, final(b)@, 1),
{
    let ghost before = b@;
    b.byte_text(byte);
    proof {
        lemma_fit_kept(before, b@, source@);
    }
    Ok(())
}

/// Appends text.
fn emit_text(b: &mut Builder, source: &[u8], text: &str) -> (r: Result<(), LayoutError>)
    requires
        old(b)@.wf(),
        builder_sources_fit(old(b)@, source@),
        text.spec_bytes().len() > 0,
        room_for(old(b)@, (text.spec_bytes().len() + 1) as int),
    ensures
        r is Ok,
        final(b)@.wf() && builder_sources_fit(final(b)@, source@) && same_frame(old(b)@, final(b)@),
        final(b)@ == old(b)@.with_text(text.spec_bytes()),
        within(old(b)@, final(b)@, (text.spec_bytes().len() + 1) as int),
{
    let ghost before = b@;
    b.text(text);
    proof {
        lemma_fit_kept(before, b@, source@);
    }
    Ok(())
}

/// Appends a line.
fn emit_line(b: &mut Builder, source: &[u8], line: Line) -> (r: Result<(), LayoutError>)
    requires
        old(b)@.wf(),
        builder_sources_fit(old(b)@, source@),
        room_for(old(b)@, 2),
    ensures
        r is Ok,
        final(b)@.wf() && builder_sources_fit(final(b)@, source@) && same_frame(old(b)@, final(b)@),
        final(b)@ == with_line(old(b)@, line),
        within(old(b)@, final(b)@, 2),
{
    let ghost before = b@;
    b.line(line);
    proof {
        lemma_fit_kept(before, b@, source@);
    }
    Ok(())
}

/// String content: each line as written, a literal newline restarting the
/// column at zero.
fn emit_literal(b: &mut Builder, source: &[u8], start: usize, end: usize) -> (r: Result<(), LayoutError>)
    requires
        old(b)@.wf(),
        builder_sources_fit(old(b)@, source@),
        source@.len() <= LIMIT,
        start <= end,
        literal_ok(source@, start, start, end),
        room_for(old(b)@, 3 * (end - start) + 1),
    ensures
        r is Ok,
        final(b)@.wf() && builder_sources_fit(final(b)@, source@) && same_frame(old(b)@, final(b)@),
        final(b)@ == with_literal(old(b)@, source@, start, start, end),
        within(old(b)@, final(b)@, 3 * (end - start) + 1),
{
    let ghost first = b@;
    let mut segment: usize = start;
    let mut k: usize = start;
    while k < end && k < source.len()
        invariant
            b@.wf(),
            builder_sources_fit(b@, source@),
            source@.len() <= LIMIT,
            same_frame(first, b@),
            start <= segment <= k <= end,
            room_for(first, 3 * (end - start) + 1),
            within(first, b@, 3 * (k - start)),
            with_literal(first, source@, start, start, end) == with_literal(b@, source@, segment, k, end),
            literal_ok(source@, segment, k, end),
        decreases end - k,
    {
        if source[k] == 10u8 {
            emit_source(b, source, segment, k)?;
            emit_line(b, source, Line::ret())?;
            segment = k + 1;
        }
        k = k + 1;
    }
    emit_source(b, source, segment, end)
}

/// Whether two or more line feeds lie in `source[from..to]`: a blank line
/// between two statements.
fn blank_between(source: &[u8], from: usize, to: usize) -> (blank: bool)
    ensures
        blank == blank_line(source@, from, to),
{
    if !(from <= to && to <= source.len()) {
        return false;
    }
    let mut count: usize = 0;
    let mut k: usize = from;
    proof {
        assert(source@.subrange(from as int, from as int) =~= Seq::<u8>::empty());
    }
    while k < to
        invariant
            from <= k <= to <= source@.len(),
            count < 2,
            count == newlines(source@.subrange(from as int, k as int)),
        decreases to - k,
    {
        proof {
            let next = source@.subrange(from as int, k + 1);
            assert(next.drop_last() =~= source@.subrange(from as int, k as int));
            assert(next.last() == source@[k as int]);
        }
        if source[k] == 10u8 {
            count = count + 1;
            if count >= 2 {
                proof {
                    lemma_newlines_grow(source@, from as int, (k + 1) as int, to as int);
                }
                return true;
            }
        }
        k = k + 1;
    }
    false
}

/// A longer stretch holds at least as many line feeds.
proof fn lemma_newlines_grow(s: Seq<u8>, from: int, mid: int, to: int)
    requires
        0 <= from <= mid <= to <= s.len(),
    ensures
        newlines(s.subrange(from, mid)) <= newlines(s.subrange(from, to)),
    decreases to - mid,
{
    if mid < to {
        lemma_newlines_grow(s, from, mid, to - 1);
        let t = s.subrange(from, to);
        assert(t.drop_last() =~= s.subrange(from, to - 1));
    }
}

/// The text of `source[start..end]`, if it is whole characters.
fn text_at(source: &[u8], start: usize, end: usize) -> (text: Option<&str>)
    ensures
        span_ok(source@, (start, end)) ==> text is Some,
        text matches Some(t) ==> start <= end <= source@.len() && t.spec_bytes() == source@.subrange(
            start as int,
            end as int,
        ),
{
    if !(start <= end && end <= source.len()) {
        return None;
    }
    let piece: &[u8] = vstd::slice::slice_subrange(source, start, end);
    match crate::unicode::str_from_utf8(piece) {
        Some(t) => Some(t),
        None => None,
    }
}

/// Lays out a string literal.
fn lay_string(b: &mut Builder, source: &[u8], options: &FormatOptions, node: SyntaxNode) -> (r: Result<
    (),
    LayoutError,
>)
    requires
        old(b)@.wf(),
        builder_sources_fit(old(b)@, source@),
        source@.len() <= LIMIT,
        node_fits(source@, node),
        node.kind is String,
        room_for(old(b)@, 3 * span_len(node.middle) + 5),
    ensures
        r is Ok,
        final(b)@.wf() && builder_sources_fit(final(b)@, source@) && same_frame(old(b)@, final(b)@),
        final(b)@ == string_laid(old(b)@, source@, *options, node),
        within(old(b)@, final(b)@, 3 * span_len(node.middle) + 5),
{
    let ghost first = b@;
    let content: &str = match text_at(source, node.middle.0, node.middle.1) {
        Some(t) => t,
        None => return Err(LayoutError::Malformed),
    };
    let question: bool = node.head.0 < source.len() && node.head.1 == node.head.0 + 1 && source[node.head.0]
        == 63u8;
    match string_form(options.quote_style, question, content) {
        StringForm::SingleQuoted => {
            emit_byte(b, source, 39u8)?;
            emit_literal(b, source, node.middle.0, node.middle.1)?;
            emit_byte(b, source, 39u8)
        },
        StringForm::DoubleQuoted => {
            emit_byte(b, source, 34u8)?;
            emit_literal(b, source, node.middle.0, node.middle.1)?;
            emit_byte(b, source, 34u8)
        },
        StringForm::Character => match character_form(content) {
            CharacterForm::Apostrophe => {
                emit_byte(b, source, 39u8)?;
                emit_byte(b, source, 39u8)?;
                emit_byte(b, source, 39u8)
            },
            CharacterForm::DoubleQuote => {
                emit_byte(b, source, 39u8)?;
                emit_byte(b, source, 92u8)?;
                emit_byte(b, source, 34u8)?;
                emit_byte(b, source, 39u8)
            },
            CharacterForm::Escape => {
                emit_byte(b, source, 63u8)?;
                emit_source(b, source, node.middle.0, node.middle.1)
            },
            CharacterForm::SingleQuoted => {
                emit_byte(b, source, 39u8)?;
                emit_literal(b, source, node.middle.0, node.middle.1)?;
                emit_byte(b, source, 39u8)
            },
        },
        StringForm::AsWritten => {
            emit_source(b, source, node.head.0, node.head.1)?;
            emit_literal(b, source, node.middle.0, node.middle.1)?;
            emit_source(b, source, node.tail.0, node.tail.1)
        },
    }
}

/// Appends a comment: an embedded document trims the blanks before it and
/// keeps its lines as written from column zero; any other comment is
/// copied.
fn emit_comment(b: &mut Builder, source: &[u8], c: Comment) -> (r: Result<(), LayoutError>)
    requires
        old(b)@.wf(),
        builder_sources_fit(old(b)@, source@),
        source@.len() <= LIMIT,
        comment_ok(source@, c),
        room_for(old(b)@, 3 * (c.end - c.start) + 2),
    ensures
        r is Ok,
        final(b)@.wf() && builder_sources_fit(final(b)@, source@) && same_frame(old(b)@, final(b)@),
        final(b)@ == comment_laid(old(b)@, source@, c),
        within(old(b)@, final(b)@, 3 * (c.end - c.start) + 2),
{
    if c.embdoc {
        let ghost before = b@;
        b.trim();
        proof {
            lemma_fit_kept(before, b@, source@);
        }
        emit_literal(b, source, c.start, c.end)
    } else {
        emit_source(b, source, c.start, c.end)
    }
}

/// Appends a comment that trails a node, deferred to the end of the line.
fn emit_trailing(b: &mut Builder, source: &[u8], c: Comment) -> (r: Result<(), LayoutError>)
    requires
        old(b)@.wf(),
        builder_sources_fit(old(b)@, source@),
        source@.len() <= LIMIT,
        comment_ok(source@, c),
        room_for(old(b)@, note_cost(c)),
    ensures
        r is Ok,
        final(b)@.wf() && builder_sources_fit(final(b)@, source@) && same_frame(old(b)@, final(b)@),
        final(b)@ == trailing_laid(old(b)@, source@, c),
        within(old(b)@, final(b)@, note_cost(c)),
{
    let ghost m0 = b@;
    b.push_target();
    let ghost opened = b@;
    if c.own_line {
        emit_line(b, source, Line::hard())?;
    } else {
        emit_byte(b, source, 32u8)?;
    }
    emit_comment(b, source, c)?;
    let ghost written = b@;
    b.break_parent();
    proof {
        lemma_fit_kept(written, b@, source@);
    }
    let ghost broke = b@;
    proof {
        assert(broke.starts.len() == opened.starts.len());
        assert(opened.starts.len() == m0.starts.len() + 1);
    }
    b.close_line_suffix(COMMENT_PRIORITY);
    proof {
        lemma_fit_kept(broke, b@, source@);
    }
    Ok(())
}

/// Appends the comments that trail a node, `range` giving where they start
/// in the tree's comments and how many they are.
fn emit_trailings(b: &mut Builder, syntax: &Syntax, source: &[u8], range: (usize, usize)) -> (r: Result<
    (),
    LayoutError,
>)
    requires
        old(b)@.wf(),
        builder_sources_fit(old(b)@, source@),
        source@.len() <= LIMIT,
        syntax.fits(source@),
        range.0 + range.1 <= syntax.notes@.len(),
        room_for(old(b)@, notes_cost(syntax.notes@, range.0 as int, range.1 as int)),
    ensures
        r is Ok,
        final(b)@.wf() && builder_sources_fit(final(b)@, source@) && same_frame(old(b)@, final(b)@),
        final(b)@ == trailings_laid(old(b)@, source@, notes_in(syntax.notes@, range)),
        within(old(b)@, final(b)@, notes_cost(syntax.notes@, range.0 as int, range.1 as int)),
{
    let ghost first = b@;
    let ghost notes = syntax.notes@;
    let mut k: usize = 0;
    let held: usize = syntax.notes.len();
    proof {
        assert(notes.subrange(range.0 as int, range.0 as int) =~= Seq::<Comment>::empty());
    }
    while k < range.1
        invariant
            held == notes.len(),
            k <= range.1,
            range.0 + range.1 <= notes.len(),
            notes == syntax.notes@,
            syntax.fits(source@),
            source@.len() <= LIMIT,
            b@.wf(),
            builder_sources_fit(b@, source@),
            same_frame(first, b@),
            room_for(first, notes_cost(notes, range.0 as int, range.1 as int)),
            within(first, b@, notes_cost(notes, range.0 as int, k as int)),
            b@ == trailings_laid(first, source@, notes.subrange(range.0 as int, range.0 + k)),
        decreases range.1 - k,
    {
        let c: Comment = syntax.notes[range.0 + k];
        proof {
            assert(comment_ok(source@, notes[range.0 + k]));
            lemma_notes_cost(notes, range.0 as int, k + 1, range.1 as int);
            assert(notes_cost(notes, range.0 as int, k + 1) == notes_cost(notes, range.0 as int, k as int)
                + note_cost(c));
        }
        emit_trailing(b, source, c)?;
        proof {
            let next = notes.subrange(range.0 as int, range.0 + k + 1);
            assert(next.drop_last() =~= notes.subrange(range.0 as int, range.0 + k));
            assert(next.last() == c);
        }
        k = k + 1;
    }
    Ok(())
}

/// How many chained calls end at node `id`.
fn chain_weight_of(syntax: &Syntax, id: usize) -> (weight: usize)
    requires
        syntax.wf(),
        id < syntax.nodes@.len(),
    ensures
        weight == chain_weight(syntax.nodes@, syntax.children@, id as int),
        weight <= syntax.nodes@.len() - id,
    decreases syntax.nodes@.len() - id,
{
    let node: SyntaxNode = syntax.nodes[id];
    let call: bool = match node.kind {
        SyntaxKind::Call(_) => true,
        _ => false,
    };
    let has_receiver: bool = node.head.0 < node.head.1;
    let has_parens: bool = node.tail.0 < node.tail.1;
    let receivers: usize = if has_receiver {
        1
    } else {
        0
    };
    proof {
        assert(node_wf(syntax.nodes@, syntax.children@, syntax.notes@, id as int));
    }
    let command: bool = !has_parens && node.child_count > receivers;
    if !(call && has_receiver && !command) {
        return 0;
    }
    if node.children_start < syntax.children.len() {
        let receiver: usize = syntax.children[node.children_start];
        if id < receiver && receiver < syntax.nodes.len() {
            return 1 + chain_weight_of(syntax, receiver);
        }
    }
    1
}

/// Appends the call operator: `&.` as written, any other as `.`.
fn emit_operator(b: &mut Builder, source: &[u8], head: (usize, usize)) -> (r: Result<(), LayoutError>)
    requires
        old(b)@.wf(),
        builder_sources_fit(old(b)@, source@),
        room_for(old(b)@, 2),
    ensures
        r is Ok,
        final(b)@.wf() && builder_sources_fit(final(b)@, source@) && same_frame(old(b)@, final(b)@),
        final(b)@ == with_operator(old(b)@, source@, head),
        within(old(b)@, final(b)@, 2),
{
    if head.0 < head.1 && head.1 <= source.len() && head.1 - head.0 == 2 && source[head.0] == 38u8 && source[head.0
        + 1] == 46u8 {
        emit_byte(b, source, 38u8)?;
        emit_byte(b, source, 46u8)
    } else {
        emit_byte(b, source, 46u8)
    }
}

/// Appends a comma that prints only where the group breaks. Where the
/// group is already broken, the branch for the flat group is left empty.
fn emit_comma_if_broken(b: &mut Builder, source: &[u8]) -> (r: Result<(), LayoutError>)
    requires
        old(b)@.wf(),
        builder_sources_fit(old(b)@, source@),
        room_for(old(b)@, 2),
    ensures
        r is Ok,
        final(b)@.wf() && builder_sources_fit(final(b)@, source@) && same_frame(old(b)@, final(b)@),
        final(b)@ == comma_if_broken(old(b)@),
        within(old(b)@, final(b)@, 2),
{
    let ghost m0 = b@;
    b.push_target();
    emit_byte(b, source, 44u8)?;
    let ghost written = b@;
    let broken: Fragment = b.pop_target();
    let ghost popped = b@;
    let flat: Fragment = if b.current_group_broken() {
        Fragment::empty()
    } else {
        b.push_target();
        b.pop_target()
    };
    let ghost before = b@;
    b.close_if_break(broken, flat);
    proof {
        lemma_fit_kept(before, b@, source@);
        assert(popped.starts =~= written.starts.drop_last());
    }
    Ok(())
}

/// Lays out a call's receiver, operator and name.
#[verifier::rlimit(40)]
fn lay_named(
    b: &mut Builder,
    syntax: &Syntax,
    source: &[u8],
    options: &FormatOptions,
    id: usize,
    unsupported: &mut Vec<u32>,
) -> (r: Result<(), LayoutError>)
    requires
        old(b)@.wf(),
        builder_sources_fit(old(b)@, source@),
        syntax.wf(),
        syntax.fits(source@),
        source@.len() <= LIMIT,
        room_for(old(b)@, receiver_cost(syntax.nodes@, syntax.children@, syntax.notes@, id as int) + 3),
        id < syntax.nodes@.len(),
        call_wf(syntax.nodes@, syntax.children@, id as int),
    ensures
        r is Ok,
        final(b)@.wf() && builder_sources_fit(final(b)@, source@) && same_frame(old(b)@, final(b)@),
        final(b)@ == named_laid(
            old(b)@,
            syntax.nodes@,
            syntax.children@,
            syntax.notes@,
            source@,
            *options,
            id as int,
        ).0,
        final(unsupported)@ == old(unsupported)@ + named_laid(
            old(b)@,
            syntax.nodes@,
            syntax.children@,
            syntax.notes@,
            source@,
            *options,
            id as int,
        ).1,
        within(old(b)@, final(b)@, receiver_cost(syntax.nodes@, syntax.children@, syntax.notes@, id as int) + 3),
    decreases syntax.nodes@.len() - id, 0int,
{
    let node: SyntaxNode = syntax.nodes[id];
    let ghost kinds0 = unsupported@;
    let ghost m0 = b@;
    proof {
        assert(node_fits(source@, syntax.nodes@[id as int]));
        assert(node_wf(syntax.nodes@, syntax.children@, syntax.notes@, id as int));
    }
    if node.head.0 < node.head.1 {
        let receiver: usize = syntax.children[node.children_start];
        proof {
            assert(syntax.children@[node.children_start as int] == receiver);
            lemma_child_step(syntax.nodes@, syntax.children@, syntax.notes@, id as int, 0);
        }
        lay_node(b, syntax, source, options, receiver, unsupported)?;
        emit_operator(b, source, node.head)?;
    } else {
        proof {
            assert(unsupported@ =~= kinds0 + Seq::<u32>::empty());
        }
    }
    emit_source(b, source, node.middle.0, node.middle.1)
}

/// Lays out a call's arguments, separated by a comma and a line.
#[verifier::rlimit(40)]
fn lay_arguments(
    b: &mut Builder,
    syntax: &Syntax,
    source: &[u8],
    options: &FormatOptions,
    id: usize,
    unsupported: &mut Vec<u32>,
) -> (r: Result<(), LayoutError>)
    requires
        old(b)@.wf(),
        builder_sources_fit(old(b)@, source@),
        syntax.wf(),
        syntax.fits(source@),
        source@.len() <= LIMIT,
        room_for(old(b)@, arguments_cost(syntax.nodes@, syntax.children@, syntax.notes@, id as int)),
        id < syntax.nodes@.len(),
        call_wf(syntax.nodes@, syntax.children@, id as int),
    ensures
        r is Ok,
        final(b)@.wf() && builder_sources_fit(final(b)@, source@) && same_frame(old(b)@, final(b)@),
        final(b)@ == arguments_laid(
            old(b)@,
            syntax.nodes@,
            syntax.children@,
            syntax.notes@,
            source@,
            *options,
            id as int,
            0,
        ).0,
        final(unsupported)@ == old(unsupported)@ + arguments_laid(
            old(b)@,
            syntax.nodes@,
            syntax.children@,
            syntax.notes@,
            source@,
            *options,
            id as int,
            0,
        ).1,
        within(old(b)@, final(b)@, arguments_cost(syntax.nodes@, syntax.children@, syntax.notes@, id as int)),
    decreases syntax.nodes@.len() - id, 0int,
{
    proof {
        assert(node_wf(syntax.nodes@, syntax.children@, syntax.notes@, id as int));
        assert(node_fits(source@, syntax.nodes@[id as int]));
        assert(shape_ok(syntax.nodes@[id as int]));
        lemma_core_cost(syntax.nodes@, syntax.children@, syntax.notes@, id as int);
        if syntax.nodes@[id as int].child_count > 0 {
            lemma_child_step(syntax.nodes@, syntax.children@, syntax.notes@, id as int, 0);
        }
        if syntax.nodes@[id as int].child_count > 1 {
            lemma_child_step(syntax.nodes@, syntax.children@, syntax.notes@, id as int, 1);
        }
    }
    let node: SyntaxNode = syntax.nodes[id];
    let ghost nodes = syntax.nodes@;
    let ghost children = syntax.children@;
    let ghost notes = syntax.notes@;
    let ghost first = b@;
    let ghost whole = arguments_laid(first, nodes, children, notes, source@, *options, id as int, 0);
    let ghost start_kinds = unsupported@;
    let ghost mut met: Seq<u32> = Seq::empty();
    let receivers: usize = if node.head.0 < node.head.1 {
        1
    } else {
        0
    };
    let listed: usize = syntax.children.len();
    proof {
        assert(listed == children.len());
    }
    let start: usize = node.children_start + receivers;
    let count: usize = node.child_count - receivers;
    let mut k: usize = 0;
    proof {
        assert(unsupported@ =~= start_kinds + met);
        assert(whole.1 =~= met + whole.1);
    }
    while k < count
        invariant
            syntax.wf(),
            nodes == syntax.nodes@,
            children == syntax.children@,
            notes == syntax.notes@,
            0 <= id < nodes.len(),
            node == nodes[id as int],
            call_wf(nodes, children, id as int),
            start == first_argument(node),
            count == argument_count(node),
            listed == children.len(),
            k <= count,
            b@.wf(),
            builder_sources_fit(b@, source@),
            same_frame(first, b@),
            whole.0 == arguments_laid(b@, nodes, children, notes, source@, *options, id as int, k as int).0,
            whole.1 == met + arguments_laid(b@, nodes, children, notes, source@, *options, id as int, k as int).1,
            unsupported@ == start_kinds + met,
            syntax.fits(source@),
            source@.len() <= LIMIT,
            receivers as int == first_argument(node) - node.children_start,
            room_for(first, 2 * (children_cost(nodes, children, notes, id as int, node.child_count as int) - children_cost(nodes, children, notes, id as int, receivers as int))),
            within(first, b@, 2 * (children_cost(nodes, children, notes, id as int, receivers + k) - children_cost(nodes, children, notes, id as int, receivers as int))),
            children_cost(nodes, children, notes, id as int, receivers + k) <= children_cost(nodes, children, notes, id as int, node.child_count as int),
        decreases count - k,
    {
        let child: usize = syntax.children[start + k];
        proof {
            assert(children[first_argument(node) + k] == child);
            assert(id < child < nodes.len());
            lemma_child_step(nodes, children, notes, id as int, receivers + k);
        }
        if k > 0 {
            emit_byte(b, source, 44u8)?;
            emit_line(b, source, Line::space())?;
        }
        let ghost separated = b@;
        lay_node(b, syntax, source, options, child, unsupported)?;
        proof {
            let laid = node_laid(separated, nodes, children, notes, source@, *options, child as int);
            let after = arguments_laid(b@, nodes, children, notes, source@, *options, id as int, k + 1);
            assert(whole.1 =~= (met + laid.1) + after.1);
            met = met + laid.1;
            assert(unsupported@ =~= start_kinds + met);
        }
        k = k + 1;
    }
    proof {
        assert(whole.1 =~= met);
        assert(unsupported@ =~= start_kinds + met);
    }
    Ok(())
}

/// Lays out a command call: its receiver and name, a space, and its
/// arguments aligned under the first.
#[verifier::rlimit(40)]
fn lay_command(
    b: &mut Builder,
    syntax: &Syntax,
    source: &[u8],
    options: &FormatOptions,
    id: usize,
    unsupported: &mut Vec<u32>,
) -> (r: Result<(), LayoutError>)
    requires
        old(b)@.wf(),
        builder_sources_fit(old(b)@, source@),
        syntax.wf(),
        syntax.fits(source@),
        source@.len() <= LIMIT,
        room_for(old(b)@, core_cost(syntax.nodes@, syntax.children@, syntax.notes@, id as int)),
        id < syntax.nodes@.len(),
        syntax.nodes@[id as int].kind is Call,
        call_wf(syntax.nodes@, syntax.children@, id as int),
        is_command(syntax.nodes@[id as int]),
    ensures
        r is Ok,
        final(b)@.wf() && builder_sources_fit(final(b)@, source@) && same_frame(old(b)@, final(b)@),
        final(b)@ == call_laid(
            old(b)@,
            syntax.nodes@,
            syntax.children@,
            syntax.notes@,
            source@,
            *options,
            id as int,
        ).0,
        final(unsupported)@ == old(unsupported)@ + call_laid(
            old(b)@,
            syntax.nodes@,
            syntax.children@,
            syntax.notes@,
            source@,
            *options,
            id as int,
        ).1,
        within(old(b)@, final(b)@, core_cost(syntax.nodes@, syntax.children@, syntax.notes@, id as int)),
    decreases syntax.nodes@.len() - id, 1int,
{
    proof {
        assert(node_wf(syntax.nodes@, syntax.children@, syntax.notes@, id as int));
        assert(node_fits(source@, syntax.nodes@[id as int]));
        assert(shape_ok(syntax.nodes@[id as int]));
        lemma_core_cost(syntax.nodes@, syntax.children@, syntax.notes@, id as int);
        if syntax.nodes@[id as int].child_count > 0 {
            lemma_child_step(syntax.nodes@, syntax.children@, syntax.notes@, id as int, 0);
        }
        if syntax.nodes@[id as int].child_count > 1 {
            lemma_child_step(syntax.nodes@, syntax.children@, syntax.notes@, id as int, 1);
        }
    }
    let node: SyntaxNode = syntax.nodes[id];
    let ghost nodes = syntax.nodes@;
    let ghost children = syntax.children@;
    let ghost notes = syntax.notes@;
    let ghost m0 = b@;
    proof {
        assert(node_wf(nodes, children, notes, id as int));
    }
    let has_receiver: bool = node.head.0 < node.head.1;
    let receivers: usize = if has_receiver {
        1
    } else {
        0
    };
    let listed: usize = syntax.children.len();
    proof {
        assert(listed == children.len());
    }
    let first: usize = node.children_start + receivers;
    let count: usize = node.child_count - receivers;
    let number: u32 = match node.kind {
        SyntaxKind::Call(n) => n,
        _ => 0,
    };
    proof {
        lemma_node_cost(nodes, children, notes, id as int);
        lemma_children_cost(nodes, children, notes, id as int, receivers as int, node.child_count as int);
        lemma_notes_cost(notes, node.body.0 as int, 0, node.body.1 as int);
        lemma_notes_cost(notes, node.trailing.0 as int, 0, node.trailing.1 as int);
        assert(node_fits(source@, node));
    }
    b.open_group();
    let ghost g = b@;
    lay_named(b, syntax, source, options, id, unsupported)?;
    emit_byte(b, source, 32u8)?;
    let ghost spaced = b@;
    let width: usize = b.pending_width(source);
    let name: &[u8] = match text_at(source, node.middle.0, node.middle.1) {
        Some(t) => t.as_bytes(),
        None => return Err(LayoutError::Malformed),
    };
    let unaligned: bool = has_receiver && crate::words::listed(name, &options.unaligned_command_calls);
    let sole: SyntaxNode = syntax.nodes[syntax.children[first]];
    let consistent: bool = options.delimited_argument_alignment != DelimitedArgumentAlignment::Aligned && count == 1
        && match sole.kind {
        SyntaxKind::Call(_) => true,
        _ => false,
    } && sole.tail.0 < sole.tail.1 && sole.child_count > (if sole.head.0 < sole.head.1 {
        1usize
    } else {
        0usize
    });
    let aligned: bool = !(unaligned || options.max_command_alignment == 0 || (has_receiver && width
        > options.max_command_alignment) || consistent);
    let mut prefix: usize = 0;
    if aligned {
        if width <= 4294967295usize {
            prefix = width;
        } else {
            unsupported.push(number);
        }
    }
    b.push_target();
    lay_arguments(b, syntax, source, options, id, unsupported)?;
    let ghost argued = b@;
    b.close_align(prefix);
    proof {
        lemma_fit_kept(argued, b@, source@);
    }
    let ghost aligned = b@;
    b.close_group();
    proof {
        lemma_fit_kept(aligned, b@, source@);
        assert(m0.depths =~= b@.depths);
    }
    Ok(())
}

/// Lays out a call's receiver and name and its parenthesized arguments.
#[verifier::rlimit(90)]
fn lay_parenthesized(
    b: &mut Builder,
    syntax: &Syntax,
    source: &[u8],
    options: &FormatOptions,
    id: usize,
    unsupported: &mut Vec<u32>,
) -> (r: Result<(), LayoutError>)
    requires
        old(b)@.wf(),
        builder_sources_fit(old(b)@, source@),
        syntax.wf(),
        syntax.fits(source@),
        source@.len() <= LIMIT,
        room_for(old(b)@, core_cost(syntax.nodes@, syntax.children@, syntax.notes@, id as int)),
        id < syntax.nodes@.len(),
        syntax.nodes@[id as int].kind is Call,
        call_wf(syntax.nodes@, syntax.children@, id as int),
        !is_command(syntax.nodes@[id as int]),
        has_parens(syntax.nodes@[id as int]),
        argument_count(syntax.nodes@[id as int]) > 0,
        !(chain_member(syntax.nodes@[id as int]) && (chain_weight(syntax.nodes@, syntax.children@, id as int)
            >= options.chain_break_threshold || syntax.nodes@[syntax.children@[syntax.nodes@[id as int].children_start as int] as int].trailing.1 > 0)),
    ensures
        r is Ok,
        final(b)@.wf() && builder_sources_fit(final(b)@, source@) && same_frame(old(b)@, final(b)@),
        final(b)@ == call_laid(
            old(b)@,
            syntax.nodes@,
            syntax.children@,
            syntax.notes@,
            source@,
            *options,
            id as int,
        ).0,
        final(unsupported)@ == old(unsupported)@ + call_laid(
            old(b)@,
            syntax.nodes@,
            syntax.children@,
            syntax.notes@,
            source@,
            *options,
            id as int,
        ).1,
        within(old(b)@, final(b)@, core_cost(syntax.nodes@, syntax.children@, syntax.notes@, id as int)),
    decreases syntax.nodes@.len() - id, 1int,
{
    proof {
        assert(node_wf(syntax.nodes@, syntax.children@, syntax.notes@, id as int));
        assert(node_fits(source@, syntax.nodes@[id as int]));
        assert(shape_ok(syntax.nodes@[id as int]));
        lemma_core_cost(syntax.nodes@, syntax.children@, syntax.notes@, id as int);
        if syntax.nodes@[id as int].child_count > 0 {
            lemma_child_step(syntax.nodes@, syntax.children@, syntax.notes@, id as int, 0);
        }
        if syntax.nodes@[id as int].child_count > 1 {
            lemma_child_step(syntax.nodes@, syntax.children@, syntax.notes@, id as int, 1);
        }
    }
    let node: SyntaxNode = syntax.nodes[id];
    let ghost nodes = syntax.nodes@;
    let ghost children = syntax.children@;
    let ghost notes = syntax.notes@;
    let ghost m0 = b@;
    proof {
        assert(node_wf(nodes, children, notes, id as int));
    }
    let has_receiver: bool = node.head.0 < node.head.1;
    let receivers: usize = if has_receiver {
        1
    } else {
        0
    };
    let listed: usize = syntax.children.len();
    proof {
        assert(listed == children.len());
    }
    let first: usize = node.children_start + receivers;
    let count: usize = node.child_count - receivers;
    lay_named(b, syntax, source, options, id, unsupported)?;
    let ghost named = b@;
    let ghost k1 = unsupported@;
    b.open_group();
    emit_byte(b, source, 40u8)?;
    b.push_target();
    emit_line(b, source, Line::soft())?;
    lay_arguments(b, syntax, source, options, id, unsupported)?;
    if options.trailing_commas {
        let last: SyntaxNode = syntax.nodes[syntax.children[node.children_start + node.child_count - 1]];
        let last_command: bool = match last.kind {
            SyntaxKind::Call(_) => last.tail.0 >= last.tail.1 && last.child_count > (if last.head.0
                < last.head.1 {
                1usize
            } else {
                0usize
            }),
            _ => false,
        };
        if !last_command {
            emit_comma_if_broken(b, source)?;
        }
    }
    let ghost commaed = b@;
    b.close_indent();
    proof {
        lemma_fit_kept(commaed, b@, source@);
    }
    emit_line(b, source, Line::soft())?;
    emit_byte(b, source, 41u8)?;
    let ghost closing = b@;
    b.close_group();
    proof {
        lemma_fit_kept(closing, b@, source@);
        assert(named.depths =~= b@.depths);
    }
    Ok(())
}

/// Lays out a method call, as `call_laid` says.
#[verifier::rlimit(40)]
fn lay_call(
    b: &mut Builder,
    syntax: &Syntax,
    source: &[u8],
    options: &FormatOptions,
    id: usize,
    unsupported: &mut Vec<u32>,
) -> (r: Result<(), LayoutError>)
    requires
        old(b)@.wf(),
        builder_sources_fit(old(b)@, source@),
        syntax.wf(),
        syntax.fits(source@),
        source@.len() <= LIMIT,
        room_for(old(b)@, core_cost(syntax.nodes@, syntax.children@, syntax.notes@, id as int)),
        id < syntax.nodes@.len(),
        syntax.nodes@[id as int].kind is Call,
    ensures
        r is Ok,
        final(b)@.wf() && builder_sources_fit(final(b)@, source@) && same_frame(old(b)@, final(b)@),
        final(b)@ == call_laid(
            old(b)@,
            syntax.nodes@,
            syntax.children@,
            syntax.notes@,
            source@,
            *options,
            id as int,
        ).0,
        final(unsupported)@ == old(unsupported)@ + call_laid(
            old(b)@,
            syntax.nodes@,
            syntax.children@,
            syntax.notes@,
            source@,
            *options,
            id as int,
        ).1,
        within(old(b)@, final(b)@, core_cost(syntax.nodes@, syntax.children@, syntax.notes@, id as int)),
    decreases syntax.nodes@.len() - id, 2int,
{
    proof {
        assert(node_wf(syntax.nodes@, syntax.children@, syntax.notes@, id as int));
        assert(node_fits(source@, syntax.nodes@[id as int]));
        assert(shape_ok(syntax.nodes@[id as int]));
        lemma_core_cost(syntax.nodes@, syntax.children@, syntax.notes@, id as int);
        if syntax.nodes@[id as int].child_count > 0 {
            lemma_child_step(syntax.nodes@, syntax.children@, syntax.notes@, id as int, 0);
        }
        if syntax.nodes@[id as int].child_count > 1 {
            lemma_child_step(syntax.nodes@, syntax.children@, syntax.notes@, id as int, 1);
        }
    }
    let node: SyntaxNode = syntax.nodes[id];
    let ghost nodes = syntax.nodes@;
    let ghost children = syntax.children@;
    let ghost notes = syntax.notes@;
    let ghost m0 = b@;
    let ghost kinds0 = unsupported@;
    proof {
        assert(node_wf(nodes, children, notes, id as int));
    }
    let number: u32 = match node.kind {
        SyntaxKind::Call(n) => n,
        _ => 0,
    };
    let has_receiver: bool = node.head.0 < node.head.1;
    let receivers: usize = if has_receiver {
        1
    } else {
        0
    };
    if node.child_count < receivers {
        return Err(LayoutError::Malformed);
    }
    let listed: usize = syntax.children.len();
    proof {
        assert(listed == children.len());
    }
    let first: usize = node.children_start + receivers;
    let count: usize = node.child_count - receivers;
    let has_parens: bool = node.tail.0 < node.tail.1;
    let command: bool = !has_parens && count > 0;
    proof {
        assert(call_wf(nodes, children, id as int));
    }
    if has_receiver && !command {
        let receiver: usize = syntax.children[node.children_start];
        let weight: usize = chain_weight_of(syntax, id);
        if weight >= options.chain_break_threshold || syntax.nodes[receiver].trailing.1 > 0 {
            unsupported.push(number);
            return emit_source(b, source, node.start, node.end);
        }
    }
    if command {
        lay_command(b, syntax, source, options, id, unsupported)
    } else if has_parens && count > 0 {
        lay_parenthesized(b, syntax, source, options, id, unsupported)
    } else {
        lay_named(b, syntax, source, options, id, unsupported)?;
        if has_parens {
            emit_byte(b, source, 40u8)?;
            emit_byte(b, source, 41u8)?;
        }
        Ok(())
    }
}

/// Lays out an array in square brackets, as `array_laid` says.
#[verifier::rlimit(40)]
fn lay_array(
    b: &mut Builder,
    syntax: &Syntax,
    source: &[u8],
    options: &FormatOptions,
    id: usize,
    unsupported: &mut Vec<u32>,
) -> (r: Result<(), LayoutError>)
    requires
        old(b)@.wf(),
        builder_sources_fit(old(b)@, source@),
        syntax.wf(),
        syntax.fits(source@),
        source@.len() <= LIMIT,
        room_for(old(b)@, core_cost(syntax.nodes@, syntax.children@, syntax.notes@, id as int)),
        id < syntax.nodes@.len(),
        syntax.nodes@[id as int].kind is Array,
    ensures
        r is Ok,
        final(b)@.wf() && builder_sources_fit(final(b)@, source@) && same_frame(old(b)@, final(b)@),
        final(b)@ == array_laid(
            old(b)@,
            syntax.nodes@,
            syntax.children@,
            syntax.notes@,
            source@,
            *options,
            id as int,
        ).0,
        final(unsupported)@ == old(unsupported)@ + array_laid(
            old(b)@,
            syntax.nodes@,
            syntax.children@,
            syntax.notes@,
            source@,
            *options,
            id as int,
        ).1,
        within(old(b)@, final(b)@, core_cost(syntax.nodes@, syntax.children@, syntax.notes@, id as int)),
    decreases syntax.nodes@.len() - id, 1int,
{
    proof {
        assert(node_wf(syntax.nodes@, syntax.children@, syntax.notes@, id as int));
        assert(node_fits(source@, syntax.nodes@[id as int]));
        assert(shape_ok(syntax.nodes@[id as int]));
        lemma_core_cost(syntax.nodes@, syntax.children@, syntax.notes@, id as int);
        if syntax.nodes@[id as int].child_count > 0 {
            lemma_child_step(syntax.nodes@, syntax.children@, syntax.notes@, id as int, 0);
        }
        if syntax.nodes@[id as int].child_count > 1 {
            lemma_child_step(syntax.nodes@, syntax.children@, syntax.notes@, id as int, 1);
        }
    }
    let node: SyntaxNode = syntax.nodes[id];
    let ghost nodes = syntax.nodes@;
    let ghost children = syntax.children@;
    let ghost notes = syntax.notes@;
    let ghost m0 = b@;
    proof {
        assert(node_wf(nodes, children, notes, id as int));
    }
    if node.head.0 < node.head.1 {
        return Err(LayoutError::Malformed);
    }
    proof {
        assert(call_wf(nodes, children, id as int));
    }
    let number: u32 = match node.kind {
        SyntaxKind::Array(n) => n,
        _ => 0,
    };
    let prefer: bool = match options.percent_arrays {
        PercentArrays::Prefer => true,
        _ => false,
    };
    if prefer && node.child_count >= 2 {
        let mut k: usize = 0;
        let mut candidate: bool = true;
        let listed: usize = syntax.children.len();
        while k < node.child_count
            invariant
                listed == children.len(),
                syntax.wf(),
                nodes == syntax.nodes@,
                children == syntax.children@,
                node == nodes[id as int],
                node_wf(nodes, children, notes, id as int),
                k <= node.child_count,
                candidate == (forall|q: int|
                    node.children_start <= q < node.children_start + k ==> {
                        let kind = #[trigger] nodes[children[q] as int].kind;
                        kind is String || kind is Verbatim
                    }),
            decreases node.child_count - k,
        {
            let element: SyntaxNode = syntax.nodes[syntax.children[node.children_start + k]];
            let plain: bool = match element.kind {
                SyntaxKind::String => true,
                SyntaxKind::Verbatim => true,
                _ => false,
            };
            proof {
                assert(children[node.children_start + k] < nodes.len());
            }
            candidate = candidate && plain;
            k = k + 1;
        }
        if candidate {
            unsupported.push(number);
            return emit_source(b, source, node.start, node.end);
        }
    }
    if node.child_count == 0 {
        b.open_group();
        emit_byte(b, source, 91u8)?;
        emit_line(b, source, Line::soft())?;
        emit_byte(b, source, 93u8)?;
        let ghost closing = b@;
        b.close_group();
        proof {
            lemma_fit_kept(closing, b@, source@);
            assert(m0.depths =~= b@.depths);
            assert(unsupported@ =~= old(unsupported)@ + Seq::<u32>::empty());
        }
        return Ok(());
    }
    b.open_group();
    emit_byte(b, source, 91u8)?;
    b.push_target();
    emit_line(b, source, Line::soft())?;
    lay_arguments(b, syntax, source, options, id, unsupported)?;
    if options.trailing_commas {
        emit_comma_if_broken(b, source)?;
    }
    let ghost commaed = b@;
    b.close_indent();
    proof {
        lemma_fit_kept(commaed, b@, source@);
    }
    emit_line(b, source, Line::soft())?;
    emit_byte(b, source, 93u8)?;
    let ghost closing = b@;
    b.close_group();
    proof {
        lemma_fit_kept(closing, b@, source@);
        assert(m0.depths =~= b@.depths);
    }
    Ok(())
}

/// Whether an assigned value stays beside the operator, as `stays_inline`
/// says.
fn stays_inline_of(syntax: &Syntax, options: &FormatOptions, id: usize) -> (inline: bool)
    requires
        syntax.wf(),
        id < syntax.nodes@.len(),
    ensures
        inline == stays_inline(syntax.nodes@, syntax.children@, *options, id as int),
    decreases syntax.nodes@.len() - id,
{
    let node: SyntaxNode = syntax.nodes[id];
    let has_receiver: bool = node.head.0 < node.head.1;
    let has_parens: bool = node.tail.0 < node.tail.1;
    proof {
        assert(node_wf(syntax.nodes@, syntax.children@, syntax.notes@, id as int));
    }
    let receivers: usize = if has_receiver {
        1
    } else {
        0
    };
    let command: bool = !has_parens && node.child_count > receivers;
    match node.kind {
        SyntaxKind::Array(_) => true,
        SyntaxKind::Call(_) => match options.multiline_assignment_layout {
            MultilineAssignmentLayout::SameLine => !command && (has_parens || has_receiver),
            MultilineAssignmentLayout::NewLine => {
                if !has_receiver || command || node.children_start >= syntax.children.len() {
                    return false;
                }
                let receiver: usize = syntax.children[node.children_start];
                id < receiver && receiver < syntax.nodes.len() && stays_inline_of(syntax, options, receiver)
            },
        },
        _ => false,
    }
}

/// Appends ASCII `bytes` as text, one byte after another.
fn emit_bytes(b: &mut Builder, source: &[u8], bytes: &[u8]) -> (r: Result<(), LayoutError>)
    requires
        old(b)@.wf(),
        builder_sources_fit(old(b)@, source@),
        room_for(old(b)@, bytes@.len() as int),
        forall|i: int| 0 <= i < bytes@.len() ==> bytes@[i] < 128,
    ensures
        r is Ok,
        final(b)@.wf() && builder_sources_fit(final(b)@, source@) && same_frame(old(b)@, final(b)@),
        final(b)@ == with_bytes(old(b)@, bytes@),
        r is Ok ==> final(b)@.children == old(b)@.children,
        within(old(b)@, final(b)@, bytes@.len() as int),
{
    let ghost first = b@;
    let mut k: usize = 0;
    proof {
        assert(bytes@.subrange(0, 0) =~= Seq::<u8>::empty());
    }
    while k < bytes.len()
        invariant
            k <= bytes@.len(),
            forall|i: int| 0 <= i < bytes@.len() ==> bytes@[i] < 128,
            b@.wf(),
            builder_sources_fit(b@, source@),
            same_frame(first, b@),
            b@.children == first.children,
            room_for(first, bytes@.len() as int),
            within(first, b@, k as int),
            b@ == with_bytes(first, bytes@.subrange(0, k as int)),
        decreases bytes.len() - k,
    {
        emit_byte(b, source, bytes[k])?;
        proof {
            let next = bytes@.subrange(0, k + 1);
            assert(next.drop_last() =~= bytes@.subrange(0, k as int));
            assert(next.last() == bytes@[k as int]);
        }
        k = k + 1;
    }
    proof {
        assert(bytes@.subrange(0, k as int) =~= bytes@);
    }
    Ok(())
}

/// Lays out a definition's head, as `definition_head` says.
#[verifier::rlimit(40)]
fn lay_definition_head(
    b: &mut Builder,
    syntax: &Syntax,
    source: &[u8],
    options: &FormatOptions,
    id: usize,
    unsupported: &mut Vec<u32>,
) -> (r: Result<(), LayoutError>)
    requires
        old(b)@.wf(),
        builder_sources_fit(old(b)@, source@),
        syntax.wf(),
        syntax.fits(source@),
        source@.len() <= LIMIT,
        room_for(old(b)@, head_cost(syntax.nodes@, syntax.children@, syntax.notes@, id as int)),
        id < syntax.nodes@.len(),
        call_wf(syntax.nodes@, syntax.children@, id as int),
        body_slot(syntax.nodes@[id as int]) <= syntax.nodes@[id as int].children_start
            + syntax.nodes@[id as int].child_count,
        syntax.nodes@[id as int].kind is Class || syntax.nodes@[id as int].kind is Module
            || syntax.nodes@[id as int].kind is Def,
    ensures
        r is Ok,
        final(b)@.wf() && builder_sources_fit(final(b)@, source@) && same_frame(old(b)@, final(b)@),
        final(b)@ == definition_head(
            old(b)@,
            syntax.nodes@,
            syntax.children@,
            syntax.notes@,
            source@,
            *options,
            id as int,
        ).0,
        final(unsupported)@ == old(unsupported)@ + definition_head(
            old(b)@,
            syntax.nodes@,
            syntax.children@,
            syntax.notes@,
            source@,
            *options,
            id as int,
        ).1,
        within(old(b)@, final(b)@, head_cost(syntax.nodes@, syntax.children@, syntax.notes@, id as int)),
    decreases syntax.nodes@.len() - id, 0int,
{
    let node: SyntaxNode = syntax.nodes[id];
    let ghost nodes = syntax.nodes@;
    let ghost children = syntax.children@;
    let ghost kinds0 = unsupported@;
    let ghost notes = syntax.notes@;
    let listed: usize = syntax.children.len();
    proof {
        assert(listed == children.len());
        assert(node_fits(source@, nodes[id as int]));
        assert(node_wf(nodes, children, notes, id as int));
        if node.child_count >= 1 {
            lemma_child_step(nodes, children, notes, id as int, 0);
        }
        if node.child_count >= 2 {
            lemma_child_step(nodes, children, notes, id as int, 1);
        }
    }
    let class_keyword: [u8; 6] = [99u8, 108u8, 97u8, 115u8, 115u8, 32u8];
    let module_keyword: [u8; 7] = [109u8, 111u8, 100u8, 117u8, 108u8, 101u8, 32u8];
    let def_keyword: [u8; 4] = [100u8, 101u8, 102u8, 32u8];
    let below: [u8; 3] = [32u8, 60u8, 32u8];
    proof {
        assert(class_keyword@ =~= seq![99u8, 108u8, 97u8, 115u8, 115u8, 32u8]);
        assert(module_keyword@ =~= seq![109u8, 111u8, 100u8, 117u8, 108u8, 101u8, 32u8]);
        assert(def_keyword@ =~= seq![100u8, 101u8, 102u8, 32u8]);
        assert(below@ =~= seq![32u8, 60u8, 32u8]);
    }
    match node.kind {
        SyntaxKind::Class => emit_bytes(b, source, class_keyword.as_slice())?,
        SyntaxKind::Module => emit_bytes(b, source, module_keyword.as_slice())?,
        _ => emit_bytes(b, source, def_keyword.as_slice())?,
    }
    match node.kind {
        SyntaxKind::Def => {
            if node.head.0 < node.head.1 {
                let receiver: usize = syntax.children[node.children_start];
                lay_node(b, syntax, source, options, receiver, unsupported)?;
                emit_byte(b, source, 46u8)?;
            } else {
                proof {
                    assert(unsupported@ =~= kinds0 + Seq::<u32>::empty());
                }
            }
            emit_source(b, source, node.middle.0, node.middle.1)?;
            if node.tail.0 < node.tail.1 {
                emit_byte(b, source, 40u8)?;
                emit_byte(b, source, 41u8)?;
            }
            Ok(())
        },
        _ => {
            proof {
                assert(node.child_count >= 1);
                assert(node.children_start < children.len());
            }
            let name: usize = syntax.children[node.children_start];
            lay_node(b, syntax, source, options, name, unsupported)?;
            let is_class: bool = match node.kind {
                SyntaxKind::Class => true,
                _ => false,
            };
            if is_class && node.middle.0 < node.middle.1 {
                let ghost kinds1 = unsupported@;
                emit_bytes(b, source, below.as_slice())?;
                let superclass: usize = syntax.children[node.children_start + 1];
                lay_node(b, syntax, source, options, superclass, unsupported)?;
                proof {
                    assert(unsupported@ =~= kinds0 + ((kinds1.subrange(kinds0.len() as int, kinds1.len() as int)) + unsupported@.subrange(kinds1.len() as int, unsupported@.len() as int)));
                }
            }
            Ok(())
        },
    }
}

/// Lays out a class, module or method definition, as `definition_laid`
/// says.
#[verifier::rlimit(90)]
fn lay_definition(
    b: &mut Builder,
    syntax: &Syntax,
    source: &[u8],
    options: &FormatOptions,
    id: usize,
    unsupported: &mut Vec<u32>,
) -> (r: Result<(), LayoutError>)
    requires
        old(b)@.wf(),
        builder_sources_fit(old(b)@, source@),
        syntax.wf(),
        syntax.fits(source@),
        source@.len() <= LIMIT,
        room_for(old(b)@, core_cost(syntax.nodes@, syntax.children@, syntax.notes@, id as int)),
        id < syntax.nodes@.len(),
        syntax.nodes@[id as int].kind is Class || syntax.nodes@[id as int].kind is Module
            || syntax.nodes@[id as int].kind is Def,
    ensures
        r is Ok,
        final(b)@.wf() && builder_sources_fit(final(b)@, source@) && same_frame(old(b)@, final(b)@),
        final(b)@ == definition_laid(
            old(b)@,
            syntax.nodes@,
            syntax.children@,
            syntax.notes@,
            source@,
            *options,
            id as int,
        ).0,
        final(unsupported)@ == old(unsupported)@ + definition_laid(
            old(b)@,
            syntax.nodes@,
            syntax.children@,
            syntax.notes@,
            source@,
            *options,
            id as int,
        ).1,
        within(old(b)@, final(b)@, core_cost(syntax.nodes@, syntax.children@, syntax.notes@, id as int)),
    decreases syntax.nodes@.len() - id, 1int,
{
    let node: SyntaxNode = syntax.nodes[id];
    let ghost nodes = syntax.nodes@;
    let ghost children = syntax.children@;
    let ghost notes = syntax.notes@;
    let ghost kinds0 = unsupported@;
    proof {
        assert(node_wf(nodes, children, notes, id as int));
    }
    let listed: usize = syntax.children.len();
    proof {
        assert(listed == children.len());
    }
    let receivers: usize = if node.head.0 < node.head.1 {
        1
    } else {
        0
    };
    let slot_offset: usize = match node.kind {
        SyntaxKind::Class => if node.middle.0 < node.middle.1 {
            2
        } else {
            1
        },
        SyntaxKind::Module => 1,
        _ => receivers,
    };
    proof {
        assert(node_fits(source@, nodes[id as int]));
        assert(shape_ok(node));
    }
    if node.child_count < slot_offset || node.child_count < receivers {
        return Err(LayoutError::Malformed);
    }
    proof {
        assert(call_wf(nodes, children, id as int));
        assert(body_slot(node) == node.children_start + slot_offset);
        lemma_node_cost(nodes, children, notes, id as int);
        lemma_notes_cost(notes, node.body.0 as int, 0, node.body.1 as int);
        lemma_notes_cost(notes, node.trailing.0 as int, 0, node.trailing.1 as int);
        lemma_children_cost(nodes, children, notes, id as int, slot_offset as int, node.child_count as int);
        if slot_offset < node.child_count {
            lemma_children_cost(nodes, children, notes, id as int, slot_offset + 1, node.child_count as int);
            let body_id = children[node.children_start + slot_offset];
            assert(children_cost(nodes, children, notes, id as int, slot_offset + 1) == children_cost(nodes, children, notes, id as int, slot_offset as int) + node_cost(nodes, children, notes, body_id as int));
        }
        assert(span_len((node.start, node.end)) >= 0 && span_len(node.middle) >= 0);
    }
    lay_definition_head(b, syntax, source, options, id, unsupported)?;
    let ghost kinds1 = unsupported@;
    if slot_offset < node.child_count {
        let body: usize = syntax.children[node.children_start + slot_offset];
        let ghost before = b@;
        b.push_target();
        emit_line(b, source, Line::hard())?;
        lay_node(b, syntax, source, options, body, unsupported)?;
        let ghost laid = b@;
        b.close_indent();
        proof {
            lemma_fit_kept(laid, b@, source@);
            assert(b@.starts.len() == before.starts.len());
        }
    } else {
        proof {
            assert(unsupported@ =~= kinds1 + Seq::<u32>::empty());
        }
    }
    let end_keyword: [u8; 3] = [101u8, 110u8, 100u8];
    proof {
        assert(end_keyword@ =~= seq![101u8, 110u8, 100u8]);
    }
    emit_line(b, source, Line::hard())?;
    emit_bytes(b, source, end_keyword.as_slice())?;
    proof {
        assert(unsupported@ =~= kinds0 + (kinds1.subrange(kinds0.len() as int, kinds1.len() as int) + unsupported@.subrange(kinds1.len() as int, unsupported@.len() as int)));
    }
    Ok(())
}

/// Lays out a constant path, as `constant_path_laid` says.
#[verifier::rlimit(40)]
fn lay_constant_path(
    b: &mut Builder,
    syntax: &Syntax,
    source: &[u8],
    options: &FormatOptions,
    id: usize,
    unsupported: &mut Vec<u32>,
) -> (r: Result<(), LayoutError>)
    requires
        old(b)@.wf(),
        builder_sources_fit(old(b)@, source@),
        syntax.wf(),
        syntax.fits(source@),
        source@.len() <= LIMIT,
        room_for(old(b)@, core_cost(syntax.nodes@, syntax.children@, syntax.notes@, id as int)),
        syntax.nodes@[id as int].kind is ConstantPath,
        id < syntax.nodes@.len(),
    ensures
        r is Ok,
        final(b)@.wf() && builder_sources_fit(final(b)@, source@) && same_frame(old(b)@, final(b)@),
        final(b)@ == constant_path_laid(
            old(b)@,
            syntax.nodes@,
            syntax.children@,
            syntax.notes@,
            source@,
            *options,
            id as int,
        ).0,
        final(unsupported)@ == old(unsupported)@ + constant_path_laid(
            old(b)@,
            syntax.nodes@,
            syntax.children@,
            syntax.notes@,
            source@,
            *options,
            id as int,
        ).1,
        within(old(b)@, final(b)@, core_cost(syntax.nodes@, syntax.children@, syntax.notes@, id as int)),
    decreases syntax.nodes@.len() - id, 1int,
{
    proof {
        assert(node_wf(syntax.nodes@, syntax.children@, syntax.notes@, id as int));
        assert(node_fits(source@, syntax.nodes@[id as int]));
        assert(shape_ok(syntax.nodes@[id as int]));
        lemma_core_cost(syntax.nodes@, syntax.children@, syntax.notes@, id as int);
        if syntax.nodes@[id as int].child_count > 0 {
            lemma_child_step(syntax.nodes@, syntax.children@, syntax.notes@, id as int, 0);
        }
        if syntax.nodes@[id as int].child_count > 1 {
            lemma_child_step(syntax.nodes@, syntax.children@, syntax.notes@, id as int, 1);
        }
    }
    let node: SyntaxNode = syntax.nodes[id];
    let ghost kinds0 = unsupported@;
    proof {
        assert(node_wf(syntax.nodes@, syntax.children@, syntax.notes@, id as int));
    }
    if node.head.0 < node.head.1 && node.child_count == 0 {
        return Err(LayoutError::Malformed);
    }
    proof {
        assert(call_wf(syntax.nodes@, syntax.children@, id as int));
    }
    if node.child_count > 0 {
        let parent: usize = syntax.children[node.children_start];
        lay_node(b, syntax, source, options, parent, unsupported)?;
    } else {
        proof {
            assert(unsupported@ =~= kinds0 + Seq::<u32>::empty());
        }
    }
    let separator: [u8; 2] = [58u8, 58u8];
    proof {
        assert(separator@ =~= seq![58u8, 58u8]);
    }
    emit_bytes(b, source, separator.as_slice())?;
    emit_source(b, source, node.middle.0, node.middle.1)
}

/// Lays out a boolean operation, as `boolean_laid` says.
#[verifier::rlimit(40)]
fn lay_boolean(
    b: &mut Builder,
    syntax: &Syntax,
    source: &[u8],
    options: &FormatOptions,
    id: usize,
    unsupported: &mut Vec<u32>,
) -> (r: Result<(), LayoutError>)
    requires
        old(b)@.wf(),
        builder_sources_fit(old(b)@, source@),
        syntax.wf(),
        syntax.fits(source@),
        source@.len() <= LIMIT,
        room_for(old(b)@, core_cost(syntax.nodes@, syntax.children@, syntax.notes@, id as int)),
        syntax.nodes@[id as int].kind is Boolean,
        id < syntax.nodes@.len(),
    ensures
        r is Ok,
        final(b)@.wf() && builder_sources_fit(final(b)@, source@) && same_frame(old(b)@, final(b)@),
        final(b)@ == boolean_laid(
            old(b)@,
            syntax.nodes@,
            syntax.children@,
            syntax.notes@,
            source@,
            *options,
            id as int,
        ).0,
        final(unsupported)@ == old(unsupported)@ + boolean_laid(
            old(b)@,
            syntax.nodes@,
            syntax.children@,
            syntax.notes@,
            source@,
            *options,
            id as int,
        ).1,
        within(old(b)@, final(b)@, core_cost(syntax.nodes@, syntax.children@, syntax.notes@, id as int)),
    decreases syntax.nodes@.len() - id, 1int,
{
    proof {
        assert(node_wf(syntax.nodes@, syntax.children@, syntax.notes@, id as int));
        assert(node_fits(source@, syntax.nodes@[id as int]));
        assert(shape_ok(syntax.nodes@[id as int]));
        lemma_core_cost(syntax.nodes@, syntax.children@, syntax.notes@, id as int);
        if syntax.nodes@[id as int].child_count > 0 {
            lemma_child_step(syntax.nodes@, syntax.children@, syntax.notes@, id as int, 0);
        }
        if syntax.nodes@[id as int].child_count > 1 {
            lemma_child_step(syntax.nodes@, syntax.children@, syntax.notes@, id as int, 1);
        }
    }
    let node: SyntaxNode = syntax.nodes[id];
    let ghost kinds0 = unsupported@;
    proof {
        assert(node_wf(syntax.nodes@, syntax.children@, syntax.notes@, id as int));
    }
    if node.child_count != 2 || node.head.0 < node.head.1 {
        return Err(LayoutError::Malformed);
    }
    proof {
        assert(call_wf(syntax.nodes@, syntax.children@, id as int));
    }
    let listed: usize = syntax.children.len();
    proof {
        assert(listed == syntax.children@.len());
    }
    let left: usize = syntax.children[node.children_start];
    let right: usize = syntax.children[node.children_start + 1];
    lay_node(b, syntax, source, options, left, unsupported)?;
    let ghost kinds1 = unsupported@;
    emit_byte(b, source, 32u8)?;
    emit_source(b, source, node.middle.0, node.middle.1)?;
    let ghost m0 = b@;
    b.open_group();
    let ghost m1 = b@;
    b.push_target();
    emit_line(b, source, Line::space())?;
    lay_node(b, syntax, source, options, right, unsupported)?;
    let ghost m4 = b@;
    b.close_indent();
    proof {
        lemma_fit_kept(m4, b@, source@);
    }
    let ghost m5 = b@;
    proof {
        assert(m1.starts.len() == m0.starts.len() + 1);
        assert(m5.starts.len() == m0.starts.len() + 1);
        assert(m5.depths == m1.depths);
        assert(m1.depths.last() == m0.starts.len());
        assert(m5.broken.len() == m0.broken.len() + 1);
    }
    b.close_group();
    proof {
        lemma_fit_kept(m5, b@, source@);
        assert(m1.depths.drop_last() =~= m0.depths);
        assert(m5.depths.drop_last() =~= m0.depths);
        assert(unsupported@ =~= kinds0 + (kinds1.subrange(kinds0.len() as int, kinds1.len() as int) + unsupported@.subrange(kinds1.len() as int, unsupported@.len() as int)));
    }
    Ok(())
}

/// Appends a choice that prints `broken` where the group breaks and `flat`
/// where it does not, as `if_break_bytes` says.
fn emit_if_break(b: &mut Builder, source: &[u8], broken: &[u8], flat: &[u8]) -> (r: Result<(), LayoutError>)
    requires
        old(b)@.wf(),
        builder_sources_fit(old(b)@, source@),
        room_for(old(b)@, (broken@.len() + flat@.len() + 1) as int),
        forall|i: int| 0 <= i < broken@.len() ==> broken@[i] < 128,
        forall|i: int| 0 <= i < flat@.len() ==> flat@[i] < 128,
    ensures
        r is Ok,
        final(b)@.wf() && builder_sources_fit(final(b)@, source@) && same_frame(old(b)@, final(b)@),
        final(b)@ == if_break_bytes(old(b)@, broken@, flat@),
        within(old(b)@, final(b)@, (broken@.len() + flat@.len() + 1) as int),
{
    let ghost m0 = b@;
    b.push_target();
    emit_bytes(b, source, broken)?;
    let chosen: Fragment = b.pop_target();
    let ghost popped = b@;
    let other: Fragment = if b.current_group_broken() {
        let flags: Vec<bool> = b.broken_flags();
        b.push_target();
        emit_bytes(b, source, flat)?;
        b.pop_target();
        let ghost dropped = b@;
        b.restore_broken_flags(flags);
        proof {
            lemma_fit_kept(dropped, b@, source@);
        }
        Fragment::empty()
    } else {
        b.push_target();
        emit_bytes(b, source, flat)?;
        b.pop_target()
    };
    let ghost before = b@;
    b.close_if_break(chosen, other);
    proof {
        lemma_fit_kept(before, b@, source@);
    }
    Ok(())
}

/// Lays out `return`, `break` or `next`, as `jump_laid` says.
#[verifier::rlimit(40)]
fn lay_jump(
    b: &mut Builder,
    syntax: &Syntax,
    source: &[u8],
    options: &FormatOptions,
    id: usize,
    unsupported: &mut Vec<u32>,
) -> (r: Result<(), LayoutError>)
    requires
        old(b)@.wf(),
        builder_sources_fit(old(b)@, source@),
        syntax.wf(),
        syntax.fits(source@),
        source@.len() <= LIMIT,
        room_for(old(b)@, core_cost(syntax.nodes@, syntax.children@, syntax.notes@, id as int)),
        id < syntax.nodes@.len(),
        syntax.nodes@[id as int].kind is Jump,
    ensures
        r is Ok,
        final(b)@.wf() && builder_sources_fit(final(b)@, source@) && same_frame(old(b)@, final(b)@),
        final(b)@ == jump_laid(
            old(b)@,
            syntax.nodes@,
            syntax.children@,
            syntax.notes@,
            source@,
            *options,
            id as int,
        ).0,
        final(unsupported)@ == old(unsupported)@ + jump_laid(
            old(b)@,
            syntax.nodes@,
            syntax.children@,
            syntax.notes@,
            source@,
            *options,
            id as int,
        ).1,
        within(old(b)@, final(b)@, core_cost(syntax.nodes@, syntax.children@, syntax.notes@, id as int)),
    decreases syntax.nodes@.len() - id, 1int,
{
    proof {
        assert(node_wf(syntax.nodes@, syntax.children@, syntax.notes@, id as int));
        assert(node_fits(source@, syntax.nodes@[id as int]));
        assert(shape_ok(syntax.nodes@[id as int]));
        lemma_core_cost(syntax.nodes@, syntax.children@, syntax.notes@, id as int);
        if syntax.nodes@[id as int].child_count > 0 {
            lemma_child_step(syntax.nodes@, syntax.children@, syntax.notes@, id as int, 0);
        }
        if syntax.nodes@[id as int].child_count > 1 {
            lemma_child_step(syntax.nodes@, syntax.children@, syntax.notes@, id as int, 1);
        }
    }
    let node: SyntaxNode = syntax.nodes[id];
    let ghost m0 = b@;
    proof {
        assert(node_wf(syntax.nodes@, syntax.children@, syntax.notes@, id as int));
    }
    if node.head.0 < node.head.1 {
        return Err(LayoutError::Malformed);
    }
    proof {
        assert(call_wf(syntax.nodes@, syntax.children@, id as int));
    }
    let number: u32 = match node.kind {
        SyntaxKind::Jump(n) => n,
        _ => 0,
    };
    if node.child_count == 1 {
        let argument: usize = syntax.children[node.children_start];
        let is_array: bool = match syntax.nodes[argument].kind {
            SyntaxKind::Array(_) => true,
            _ => false,
        };
        if is_array {
            unsupported.push(number);
            return emit_source(b, source, node.start, node.end);
        }
    }
    emit_source(b, source, node.middle.0, node.middle.1)?;
    if node.child_count == 0 {
        proof {
            assert(unsupported@ =~= old(unsupported)@ + Seq::<u32>::empty());
        }
        return Ok(());
    }
    let open_paren: [u8; 1] = [40u8];
    let close_paren: [u8; 1] = [41u8];
    let open_bracket: [u8; 2] = [32u8, 91u8];
    let close_bracket: [u8; 1] = [93u8];
    let space: [u8; 1] = [32u8];
    let nothing: [u8; 0] = [];
    proof {
        assert(open_paren@ =~= seq![40u8]);
        assert(close_paren@ =~= seq![41u8]);
        assert(open_bracket@ =~= seq![32u8, 91u8]);
        assert(close_bracket@ =~= seq![93u8]);
        assert(space@ =~= seq![32u8]);
        assert(nothing@ =~= Seq::<u8>::empty());
    }
    let ghost g0 = b@;
    b.open_group();
    let ghost g1 = b@;
    if node.child_count == 1 {
        let argument: usize = syntax.children[node.children_start];
        emit_if_break(b, source, open_paren.as_slice(), space.as_slice())?;
        b.push_target();
        emit_line(b, source, Line::soft())?;
        lay_node(b, syntax, source, options, argument, unsupported)?;
    } else {
        emit_if_break(b, source, open_bracket.as_slice(), space.as_slice())?;
        b.push_target();
        emit_line(b, source, Line::soft())?;
        lay_arguments(b, syntax, source, options, id, unsupported)?;
    }
    let ghost laid = b@;
    b.close_indent();
    proof {
        lemma_fit_kept(laid, b@, source@);
    }
    emit_line(b, source, Line::soft())?;
    if node.child_count == 1 {
        emit_if_break(b, source, close_paren.as_slice(), nothing.as_slice())?;
    } else {
        emit_if_break(b, source, close_bracket.as_slice(), nothing.as_slice())?;
    }
    let ghost closing = b@;
    proof {
        assert(g1.depths.last() == g0.starts.len());
        assert(closing.depths == g1.depths);
        assert(closing.starts.len() == g1.starts.len());
        assert(closing.broken.len() == g1.broken.len());
    }
    b.close_group();
    proof {
        lemma_fit_kept(closing, b@, source@);
        assert(g1.depths.drop_last() =~= g0.depths);
    }
    Ok(())
}

/// Lays out parentheses, as `parentheses_laid` says.
#[verifier::rlimit(40)]
fn lay_parentheses(
    b: &mut Builder,
    syntax: &Syntax,
    source: &[u8],
    options: &FormatOptions,
    id: usize,
    unsupported: &mut Vec<u32>,
) -> (r: Result<(), LayoutError>)
    requires
        old(b)@.wf(),
        builder_sources_fit(old(b)@, source@),
        syntax.wf(),
        syntax.fits(source@),
        source@.len() <= LIMIT,
        room_for(old(b)@, core_cost(syntax.nodes@, syntax.children@, syntax.notes@, id as int)),
        syntax.nodes@[id as int].kind is Parentheses,
        id < syntax.nodes@.len(),
    ensures
        r is Ok,
        final(b)@.wf() && builder_sources_fit(final(b)@, source@) && same_frame(old(b)@, final(b)@),
        final(b)@ == parentheses_laid(
            old(b)@,
            syntax.nodes@,
            syntax.children@,
            syntax.notes@,
            source@,
            *options,
            id as int,
        ).0,
        final(unsupported)@ == old(unsupported)@ + parentheses_laid(
            old(b)@,
            syntax.nodes@,
            syntax.children@,
            syntax.notes@,
            source@,
            *options,
            id as int,
        ).1,
        within(old(b)@, final(b)@, core_cost(syntax.nodes@, syntax.children@, syntax.notes@, id as int)),
    decreases syntax.nodes@.len() - id, 1int,
{
    proof {
        assert(node_wf(syntax.nodes@, syntax.children@, syntax.notes@, id as int));
        assert(node_fits(source@, syntax.nodes@[id as int]));
        assert(shape_ok(syntax.nodes@[id as int]));
        lemma_core_cost(syntax.nodes@, syntax.children@, syntax.notes@, id as int);
        if syntax.nodes@[id as int].child_count > 0 {
            lemma_child_step(syntax.nodes@, syntax.children@, syntax.notes@, id as int, 0);
        }
        if syntax.nodes@[id as int].child_count > 1 {
            lemma_child_step(syntax.nodes@, syntax.children@, syntax.notes@, id as int, 1);
        }
    }
    let node: SyntaxNode = syntax.nodes[id];
    proof {
        assert(node_wf(syntax.nodes@, syntax.children@, syntax.notes@, id as int));
    }
    if node.head.0 < node.head.1 && node.child_count == 0 {
        return Err(LayoutError::Malformed);
    }
    proof {
        assert(call_wf(syntax.nodes@, syntax.children@, id as int));
    }
    let open_paren: [u8; 1] = [40u8];
    let close_paren: [u8; 1] = [41u8];
    let both: [u8; 2] = [40u8, 41u8];
    proof {
        assert(open_paren@ =~= seq![40u8]);
        assert(close_paren@ =~= seq![41u8]);
        assert(both@ =~= seq![40u8, 41u8]);
    }
    if node.child_count == 0 {
        proof {
            assert(unsupported@ =~= old(unsupported)@ + Seq::<u32>::empty());
        }
        return emit_bytes(b, source, both.as_slice());
    }
    let inner: usize = syntax.children[node.children_start];
    let ghost g0 = b@;
    b.open_group();
    let ghost g1 = b@;
    emit_bytes(b, source, open_paren.as_slice())?;
    b.push_target();
    emit_line(b, source, Line::soft())?;
    lay_node(b, syntax, source, options, inner, unsupported)?;
    let ghost laid = b@;
    b.close_indent();
    proof {
        lemma_fit_kept(laid, b@, source@);
    }
    emit_line(b, source, Line::soft())?;
    emit_bytes(b, source, close_paren.as_slice())?;
    let ghost closing = b@;
    proof {
        assert(g1.depths.last() == g0.starts.len());
        assert(closing.depths == g1.depths);
        assert(closing.starts.len() == g1.starts.len());
        assert(closing.broken.len() == g1.broken.len());
    }
    b.close_group();
    proof {
        lemma_fit_kept(closing, b@, source@);
        assert(g1.depths.drop_last() =~= g0.depths);
    }
    Ok(())
}

/// Lays out node `id` with the comments that trail it; the kinds of nodes
/// with no layout are added to `unsupported` and the nodes copied as
/// written.
#[verifier::rlimit(40)]
fn lay_node(
    b: &mut Builder,
    syntax: &Syntax,
    source: &[u8],
    options: &FormatOptions,
    id: usize,
    unsupported: &mut Vec<u32>,
) -> (r: Result<(), LayoutError>)
    requires
        old(b)@.wf(),
        builder_sources_fit(old(b)@, source@),
        syntax.wf(),
        syntax.fits(source@),
        source@.len() <= LIMIT,
        room_for(old(b)@, node_cost(syntax.nodes@, syntax.children@, syntax.notes@, id as int)),
        id < syntax.nodes@.len(),
    ensures
        r is Ok,
        final(b)@.wf() && builder_sources_fit(final(b)@, source@) && same_frame(old(b)@, final(b)@),
        final(b)@ == node_laid(
            old(b)@,
            syntax.nodes@,
            syntax.children@,
            syntax.notes@,
            source@,
            *options,
            id as int,
        ).0,
        final(unsupported)@ == old(unsupported)@ + node_laid(
            old(b)@,
            syntax.nodes@,
            syntax.children@,
            syntax.notes@,
            source@,
            *options,
            id as int,
        ).1,
        within(old(b)@, final(b)@, node_cost(syntax.nodes@, syntax.children@, syntax.notes@, id as int)),
    decreases syntax.nodes@.len() - id, 4int,
{
    proof {
        lemma_core_cost(syntax.nodes@, syntax.children@, syntax.notes@, id as int);
        lemma_notes_cost(
            syntax.notes@,
            syntax.nodes@[id as int].trailing.0 as int,
            0,
            syntax.nodes@[id as int].trailing.1 as int,
        );
    }
    let node: SyntaxNode = syntax.nodes[id];
    proof {
        assert(node_wf(syntax.nodes@, syntax.children@, syntax.notes@, id as int));
    }
    lay_core(b, syntax, source, options, id, unsupported)?;
    emit_trailings(b, syntax, source, node.trailing)
}

/// Lays out node `id`, a statement list, as `core_laid` says.
#[verifier::rlimit(60)]
fn lay_statements(
    b: &mut Builder,
    syntax: &Syntax,
    source: &[u8],
    options: &FormatOptions,
    id: usize,
    unsupported: &mut Vec<u32>,
) -> (r: Result<(), LayoutError>)
    requires
        old(b)@.wf(),
        builder_sources_fit(old(b)@, source@),
        syntax.wf(),
        syntax.fits(source@),
        source@.len() <= LIMIT,
        room_for(old(b)@, core_cost(syntax.nodes@, syntax.children@, syntax.notes@, id as int)),
        id < syntax.nodes@.len(),
        syntax.nodes@[id as int].kind is Statements,
    ensures
        r is Ok,
        final(b)@.wf() && builder_sources_fit(final(b)@, source@) && same_frame(old(b)@, final(b)@),
        final(b)@ == core_laid(
            old(b)@,
            syntax.nodes@,
            syntax.children@,
            syntax.notes@,
            source@,
            *options,
            id as int,
        ).0,
        final(unsupported)@ == old(unsupported)@ + core_laid(
            old(b)@,
            syntax.nodes@,
            syntax.children@,
            syntax.notes@,
            source@,
            *options,
            id as int,
        ).1,
        within(old(b)@, final(b)@, core_cost(syntax.nodes@, syntax.children@, syntax.notes@, id as int)),
    decreases syntax.nodes@.len() - id, 1int,
{
    proof {
        assert(node_wf(syntax.nodes@, syntax.children@, syntax.notes@, id as int));
        assert(node_fits(source@, syntax.nodes@[id as int]));
        assert(shape_ok(syntax.nodes@[id as int]));
        lemma_core_cost(syntax.nodes@, syntax.children@, syntax.notes@, id as int);
        if syntax.nodes@[id as int].child_count > 0 {
            lemma_child_step(syntax.nodes@, syntax.children@, syntax.notes@, id as int, 0);
        }
        if syntax.nodes@[id as int].child_count > 1 {
            lemma_child_step(syntax.nodes@, syntax.children@, syntax.notes@, id as int, 1);
        }
    }
    let node: SyntaxNode = syntax.nodes[id];
    let ghost nodes = syntax.nodes@;
    let ghost children = syntax.children@;
    let ghost notes = syntax.notes@;
    let ghost start_kinds = unsupported@;
    proof {
        assert(node_wf(nodes, children, notes, id as int));
    }
    let ghost first = b@;
    let ghost whole = entries_laid(first, nodes, children, notes, source@, *options, id as int, 0, 0, None);
    let ghost mut met: Seq<u32> = Seq::empty();
    let mut previous: Option<usize> = None;
    let mut i: usize = 0;
    let mut j: usize = 0;
    let held: usize = syntax.notes.len();
    let listed: usize = syntax.children.len();
    proof {
        assert(unsupported@ =~= start_kinds + met);
        assert(whole.1 =~= met + whole.1);
    }
    while i < node.child_count || j < node.body.1
        invariant
            syntax.wf(),
            nodes == syntax.nodes@,
            children == syntax.children@,
            notes == syntax.notes@,
            held == notes.len(),
            listed == children.len(),
            0 <= id < nodes.len(),
            node == nodes[id as int],
            node_wf(nodes, children, notes, id as int),
            i <= node.child_count,
            j <= node.body.1,
            b@.wf(),
            builder_sources_fit(b@, source@),
            same_frame(first, b@),
            whole.0 == entries_laid(b@, nodes, children, notes, source@, *options, id as int, i as int, j as int, previous).0,
            whole.1 == met + entries_laid(b@, nodes, children, notes, source@, *options, id as int, i as int, j as int, previous).1,
            unsupported@ == start_kinds + met,
            syntax.fits(source@),
            source@.len() <= LIMIT,
            room_for(first, 2 * children_cost(nodes, children, notes, id as int, node.child_count as int) + notes_cost(notes, node.body.0 as int, node.body.1 as int)),
            within(first, b@, 2 * children_cost(nodes, children, notes, id as int, i as int) + notes_cost(notes, node.body.0 as int, j as int)),
            children_cost(nodes, children, notes, id as int, i as int) <= children_cost(nodes, children, notes, id as int, node.child_count as int),
            notes_cost(notes, node.body.0 as int, j as int) <= notes_cost(notes, node.body.0 as int, node.body.1 as int),
        decreases (node.child_count - i) + (node.body.1 - j),
    {
        proof {
            if i < node.child_count {
                lemma_child_step(nodes, children, notes, id as int, i as int);
            }
            if j < node.body.1 {
                lemma_notes_cost(notes, node.body.0 as int, j + 1, node.body.1 as int);
                assert(comment_ok(source@, notes[node.body.0 + j]));
            }
            lemma_notes_cost(notes, node.body.0 as int, j as int, j as int);
        }
        let ghost here = b@;
        let ghost rest = entries_laid(here, nodes, children, notes, source@, *options, id as int, i as int, j as int, previous);
        let is_node: bool = i < node.child_count && (j >= node.body.1 || syntax.nodes[syntax.children[
            node.children_start + i]].start <= syntax.notes[node.body.0 + j].start);
        proof {
            assert(is_node == statement_next(nodes, children, notes, id as int, i as int, j as int));
        }
        let entry_start: usize = if is_node {
            syntax.nodes[syntax.children[node.children_start + i]].start
        } else {
            syntax.notes[node.body.0 + j].start
        };
        if let Some(end) = previous {
            emit_line(b, source, Line::hard())?;
            if blank_between(source, end, entry_start) {
                emit_line(b, source, Line::hard())?;
            }
        }
        let ghost separated = b@;
        if is_node {
            let child: usize = syntax.children[node.children_start + i];
            proof {
                assert(children[node.children_start + i] == child);
                assert(id < child < nodes.len());
            }
            let ghost kinds_before = unsupported@;
            lay_node(b, syntax, source, options, child, unsupported)?;
            let ghost laid = node_laid(separated, nodes, children, notes, source@, *options, child as int);
            proof {
                let after = entries_laid(b@, nodes, children, notes, source@, *options, id as int, i + 1, j as int, Some(nodes[child as int].end));
                assert(rest == (after.0, laid.1 + after.1));
                assert(whole.1 =~= (met + laid.1) + after.1);
                met = met + laid.1;
                assert(unsupported@ =~= start_kinds + met);
            }
            previous = Some(syntax.nodes[child].end);
            i = i + 1;
        } else {
            let c: Comment = syntax.notes[node.body.0 + j];
            emit_comment(b, source, c)?;
            proof {
                assert(notes[node.body.0 + j] == c);
            }
            previous = Some(c.end);
            j = j + 1;
        }
    }
    Ok(())
}

/// Lays out node `id`, a write, as `core_laid` says.
#[verifier::rlimit(60)]
fn lay_write(
    b: &mut Builder,
    syntax: &Syntax,
    source: &[u8],
    options: &FormatOptions,
    id: usize,
    unsupported: &mut Vec<u32>,
) -> (r: Result<(), LayoutError>)
    requires
        old(b)@.wf(),
        builder_sources_fit(old(b)@, source@),
        syntax.wf(),
        syntax.fits(source@),
        source@.len() <= LIMIT,
        room_for(old(b)@, core_cost(syntax.nodes@, syntax.children@, syntax.notes@, id as int)),
        id < syntax.nodes@.len(),
        syntax.nodes@[id as int].kind is Write,
    ensures
        r is Ok,
        final(b)@.wf() && builder_sources_fit(final(b)@, source@) && same_frame(old(b)@, final(b)@),
        final(b)@ == core_laid(
            old(b)@,
            syntax.nodes@,
            syntax.children@,
            syntax.notes@,
            source@,
            *options,
            id as int,
        ).0,
        final(unsupported)@ == old(unsupported)@ + core_laid(
            old(b)@,
            syntax.nodes@,
            syntax.children@,
            syntax.notes@,
            source@,
            *options,
            id as int,
        ).1,
        within(old(b)@, final(b)@, core_cost(syntax.nodes@, syntax.children@, syntax.notes@, id as int)),
    decreases syntax.nodes@.len() - id, 1int,
{
    proof {
        assert(node_wf(syntax.nodes@, syntax.children@, syntax.notes@, id as int));
        assert(node_fits(source@, syntax.nodes@[id as int]));
        assert(shape_ok(syntax.nodes@[id as int]));
        lemma_core_cost(syntax.nodes@, syntax.children@, syntax.notes@, id as int);
        if syntax.nodes@[id as int].child_count > 0 {
            lemma_child_step(syntax.nodes@, syntax.children@, syntax.notes@, id as int, 0);
        }
        if syntax.nodes@[id as int].child_count > 1 {
            lemma_child_step(syntax.nodes@, syntax.children@, syntax.notes@, id as int, 1);
        }
    }
    let node: SyntaxNode = syntax.nodes[id];
    let ghost nodes = syntax.nodes@;
    let ghost children = syntax.children@;
    let ghost notes = syntax.notes@;
    let ghost start_kinds = unsupported@;
    proof {
        assert(node_wf(nodes, children, notes, id as int));
    }
    if node.child_count != 1 {
        return Err(LayoutError::Malformed);
    }
    let value: usize = syntax.children[node.children_start];
    let ghost m0 = b@;
    b.open_group();
    let ghost m1 = b@;
    emit_source(b, source, node.head.0, node.head.1)?;
    emit_byte(b, source, 32u8)?;
    emit_source(b, source, node.middle.0, node.middle.1)?;
    let ghost m2 = b@;
    if stays_inline_of(syntax, options, value) {
        emit_byte(b, source, 32u8)?;
        lay_node(b, syntax, source, options, value, unsupported)?;
        let ghost m5 = b@;
        proof {
            assert(m1.starts.len() == m0.starts.len() + 1);
            assert(m1.depths.drop_last() == m0.depths);
            assert(m5.starts.len() == m0.starts.len() + 1);
            assert(m5.depths == m1.depths);
            assert(m5.depths.last() == m0.starts.len());
            assert(m5.broken.len() == m0.broken.len() + 1);
        }
        b.close_group();
        proof {
            lemma_fit_kept(m5, b@, source@);
            assert(m5.depths.drop_last() =~= m0.depths);
            assert(children[node.children_start as int] == value);
            assert(id < value < nodes.len());
            assert(m1 == group_opened(m0));
        }
        return Ok(());
    }
    b.push_target();
    let ghost m3 = b@;
    emit_line(b, source, Line::space())?;
    lay_node(b, syntax, source, options, value, unsupported)?;
    let ghost m4 = b@;
    b.close_indent();
    proof {
        lemma_fit_kept(m4, b@, source@);
    }
    let ghost m5 = b@;
    proof {
        assert(m1.starts.len() == m0.starts.len() + 1);
        assert(m1.depths.drop_last() == m0.depths);
        assert(m3.starts.len() == m2.starts.len() + 1);
        assert(m5.starts.len() == m4.starts.len() - 1);
        assert(m5.depths == m4.depths);
        assert(m5.broken.len() == m4.broken.len());
        assert(m5.starts.len() == m0.starts.len() + 1);
        assert(m5.depths == m1.depths);
        assert(m5.depths.last() == m0.starts.len());
        assert(m5.broken.len() == m0.broken.len() + 1);
    }
    b.close_group();
    proof {
        lemma_fit_kept(m5, b@, source@);
        assert(m5.depths.drop_last() =~= m0.depths);
        assert(children[node.children_start as int] == value);
        assert(id < value < nodes.len());
        assert(m1 == group_opened(m0));
    }
    Ok(())
}

/// Lays out node `id` itself, as `core_laid` says.
#[verifier::rlimit(40)]
fn lay_core(
    b: &mut Builder,
    syntax: &Syntax,
    source: &[u8],
    options: &FormatOptions,
    id: usize,
    unsupported: &mut Vec<u32>,
) -> (r: Result<(), LayoutError>)
    requires
        old(b)@.wf(),
        builder_sources_fit(old(b)@, source@),
        syntax.wf(),
        syntax.fits(source@),
        source@.len() <= LIMIT,
        room_for(old(b)@, core_cost(syntax.nodes@, syntax.children@, syntax.notes@, id as int)),
        id < syntax.nodes@.len(),
    ensures
        r is Ok,
        final(b)@.wf() && builder_sources_fit(final(b)@, source@) && same_frame(old(b)@, final(b)@),
        final(b)@ == core_laid(
            old(b)@,
            syntax.nodes@,
            syntax.children@,
            syntax.notes@,
            source@,
            *options,
            id as int,
        ).0,
        final(unsupported)@ == old(unsupported)@ + core_laid(
            old(b)@,
            syntax.nodes@,
            syntax.children@,
            syntax.notes@,
            source@,
            *options,
            id as int,
        ).1,
        within(old(b)@, final(b)@, core_cost(syntax.nodes@, syntax.children@, syntax.notes@, id as int)),
    decreases syntax.nodes@.len() - id, 3int,
{
    proof {
        assert(node_wf(syntax.nodes@, syntax.children@, syntax.notes@, id as int));
        assert(node_fits(source@, syntax.nodes@[id as int]));
        assert(shape_ok(syntax.nodes@[id as int]));
        lemma_core_cost(syntax.nodes@, syntax.children@, syntax.notes@, id as int);
        if syntax.nodes@[id as int].child_count > 0 {
            lemma_child_step(syntax.nodes@, syntax.children@, syntax.notes@, id as int, 0);
        }
        if syntax.nodes@[id as int].child_count > 1 {
            lemma_child_step(syntax.nodes@, syntax.children@, syntax.notes@, id as int, 1);
        }
    }
    let node: SyntaxNode = syntax.nodes[id];
    let ghost nodes = syntax.nodes@;
    let ghost children = syntax.children@;
    let ghost notes = syntax.notes@;
    let ghost start_kinds = unsupported@;
    proof {
        assert(node_wf(nodes, children, notes, id as int));
    }
    match node.kind {
        SyntaxKind::Call(_) => lay_call(b, syntax, source, options, id, unsupported),
        SyntaxKind::Array(_) => lay_array(b, syntax, source, options, id, unsupported),
        SyntaxKind::ConstantPath => lay_constant_path(b, syntax, source, options, id, unsupported),
        SyntaxKind::Boolean => lay_boolean(b, syntax, source, options, id, unsupported),
        SyntaxKind::Jump(_) => lay_jump(b, syntax, source, options, id, unsupported),
        SyntaxKind::Parentheses => lay_parentheses(b, syntax, source, options, id, unsupported),
        SyntaxKind::Class | SyntaxKind::Module | SyntaxKind::Def => lay_definition(
            b,
            syntax,
            source,
            options,
            id,
            unsupported,
        ),
        SyntaxKind::Statements => lay_statements(b, syntax, source, options, id, unsupported),
        SyntaxKind::Write => lay_write(b, syntax, source, options, id, unsupported),
        SyntaxKind::Integer => {
            let text: &str = match text_at(source, node.start, node.end) {
                Some(t) => t,
                None => return Err(LayoutError::Malformed),
            };
            match integer_text(options.normalize_number_separators, text) {
                Some(separated) => {
                    proof {
                        let digits = crate::literals::sign_split(text.spec_bytes()).1;
                        assert(digits.len() >= 5);
                        assert(crate::literals::grouped(digits).len() >= 4);
                        lemma_grouped_len(digits);
                        assert(vstd::utf8::encode_utf8(separated@).len() <= 2 * span_len((node.start, node.end)));
                    }
                    emit_text(b, source, separated.as_str())
                },
                None => emit_source(b, source, node.start, node.end),
            }
        },
        SyntaxKind::String => lay_string(b, source, options, node),
        SyntaxKind::Verbatim => emit_source(b, source, node.start, node.end),
        SyntaxKind::Unsupported(kind) => {
            unsupported.push(kind);
            emit_source(b, source, node.start, node.end)
        },
    }
}

/// A cost, or 2^32 where it is larger.
pub open spec fn capped(c: int) -> int {
    if c < 0x1_0000_0000 {
        c
    } else {
        0x1_0000_0000
    }
}

/// Whether laying out the program fits the builder's arenas, with room for
/// the newline that ends the file: the source is addressable by them, and
/// what node 0 can add at most stays within them.
pub open spec fn laid_in_room(syntax: &Syntax, source: Seq<u8>) -> bool {
    &&& source.len() <= LIMIT
    &&& node_cost(syntax.nodes@, syntax.children@, syntax.notes@, 0) + 2 <= LIMIT
}

/// The sum of two capped costs, capped.
fn add_capped(a: u64, b: u64) -> (c: u64)
    requires
        a <= 0x1_0000_0000,
        b <= 0x1_0000_0000,
    ensures
        c == capped(a + b),
{
    if a + b < 0x1_0000_0000u64 {
        a + b
    } else {
        0x1_0000_0000u64
    }
}

/// Four times a span's length, capped.
fn span_cost(s: (usize, usize)) -> (c: u64)
    ensures
        c == capped(4 * span_len(s)),
{
    if s.0 > s.1 {
        return 0;
    }
    let n: usize = s.1 - s.0;
    if n >= 0x4000_0000usize {
        0x1_0000_0000u64
    } else {
        4 * (n as u64)
    }
}

/// The cost of `count` comments from `start`, capped.
fn capped_notes_cost(syntax: &Syntax, start: usize, count: usize) -> (c: u64)
    ensures
        c == capped(notes_cost(syntax.notes@, start as int, count as int)),
{
    let mut k: usize = 0;
    let mut total: u64 = 0;
    while k < count
        invariant
            k <= count,
            total == capped(notes_cost(syntax.notes@, start as int, k as int)),
            notes_cost(syntax.notes@, start as int, k as int) >= 0,
        decreases count - k,
    {
        proof {
            lemma_notes_cost(syntax.notes@, start as int, k as int, k + 1);
        }
        if start < syntax.notes.len() && k < syntax.notes.len() - start {
            let c: Comment = syntax.notes[start + k];
            let here: u64 = add_capped(64, span_cost((c.start, c.end)));
            total = add_capped(total, here);
        }
        k = k + 1;
    }
    total
}

/// What laying out node `id` can add at most, capped.
fn capped_cost(syntax: &Syntax, id: usize) -> (c: u64)
    requires
        syntax.wf(),
        id < syntax.nodes@.len(),
    ensures
        c == capped(node_cost(syntax.nodes@, syntax.children@, syntax.notes@, id as int)),
    decreases syntax.nodes@.len() - id,
{
    let ghost nodes = syntax.nodes@;
    let ghost children = syntax.children@;
    let ghost notes = syntax.notes@;
    let node: SyntaxNode = syntax.nodes[id];
    proof {
        assert(node_wf(nodes, children, notes, id as int));
        lemma_node_cost(nodes, children, notes, id as int);
        lemma_notes_cost(notes, node.body.0 as int, 0, node.body.1 as int);
        lemma_notes_cost(notes, node.trailing.0 as int, 0, node.trailing.1 as int);
    }
    let mut k: usize = 0;
    let mut kids: u64 = 0;
    let listed: usize = syntax.children.len();
    while k < node.child_count
        invariant
            listed == children.len(),
            syntax.wf(),
            nodes == syntax.nodes@,
            children == syntax.children@,
            notes == syntax.notes@,
            id < nodes.len(),
            node == nodes[id as int],
            node_wf(nodes, children, notes, id as int),
            k <= node.child_count,
            kids == capped(children_cost(nodes, children, notes, id as int, k as int)),
            children_cost(nodes, children, notes, id as int, k as int) >= 0,
        decreases node.child_count - k,
    {
        let child: usize = syntax.children[node.children_start + k];
        proof {
            assert(children[node.children_start + k] == child);
            lemma_child_step(nodes, children, notes, id as int, k as int);
        }
        let here: u64 = capped_cost(syntax, child);
        kids = add_capped(kids, here);
        k = k + 1;
    }
    let doubled: u64 = add_capped(kids, kids);
    let mut total: u64 = add_capped(64, span_cost((node.start, node.end)));
    total = add_capped(total, span_cost(node.middle));
    total = add_capped(total, capped_notes_cost(syntax, node.trailing.0, node.trailing.1));
    total = add_capped(total, capped_notes_cost(syntax, node.body.0, node.body.1));
    total = add_capped(total, doubled);
    proof {
        assert(span_len((node.start, node.end)) >= 0 && span_len(node.middle) >= 0);
    }
    total
}

/// Lays out a program whose statement list is node 0 of `syntax`, ending it
/// with a newline, as `program_laid` says. A tree that is not well formed or
/// does not fit the source is refused as malformed; one whose layout could
/// outgrow the document's arenas, as too large; a program holding a node of
/// a kind with no layout, with those kinds in the order met.
pub fn layout_program(syntax: &Syntax, source: &[u8], options: &FormatOptions) -> (laid: Result<
    Document,
    LayoutError,
>)
    ensures
        laid matches Err(LayoutError::Malformed) <==> !(syntax.wf() && syntax.nodes@.len() > 0 && syntax.fits(
            source@,
        )),
        laid matches Err(LayoutError::TooLarge) <==> syntax.wf() && syntax.nodes@.len() > 0 && syntax.fits(source@)
            && !laid_in_room(syntax, source@),
        syntax.wf() && syntax.nodes@.len() > 0 && syntax.fits(source@) && laid_in_room(syntax, source@) ==> (
        laid is Ok <==> program_laid(syntax, source@, *options).1.len() == 0),
        laid matches Err(LayoutError::Unsupported(kinds)) ==> kinds@.len() > 0 && kinds@ == program_laid(
            syntax,
            source@,
            *options,
        ).1,
        laid matches Ok(d) ==> d@.wf() && sources_fit(d@, source@),
        laid matches Ok(d) ==> d@ == finished(program_laid(syntax, source@, *options).0),
{
    if syntax.nodes.len() == 0 || !syntax.is_well_formed() || !syntax.fits_source(source) {
        return Err(LayoutError::Malformed);
    }
    if source.len() > LIMIT {
        return Err(LayoutError::TooLarge);
    }
    let cost: u64 = capped_cost(syntax, 0);
    if cost + 2 > 0xFFFF_FFFFu64 {
        return Err(LayoutError::TooLarge);
    }
    let mut b: Builder = Builder::new();
    let mut unsupported: Vec<u32> = Vec::new();
    proof {
        assert(builder_sources_fit(b@, source@));
        assert(b@.docs =~= Seq::<Doc>::empty());
        assert(b@.children =~= Seq::<u32>::empty());
        assert(b@.text =~= Seq::<u8>::empty());
        assert(b@.working =~= Seq::<u32>::empty());
        assert(b@ == empty_builder());
        assert(unsupported@ + node_laid(b@, syntax.nodes@, syntax.children@, syntax.notes@, source@, *options, 0).1
            =~= node_laid(b@, syntax.nodes@, syntax.children@, syntax.notes@, source@, *options, 0).1);
        lemma_node_cost(syntax.nodes@, syntax.children@, syntax.notes@, 0);
    }
    lay_node(&mut b, syntax, source, options, 0, &mut unsupported)?;
    emit_line(&mut b, source, Line::hard())?;
    if unsupported.len() > 0 {
        return Err(LayoutError::Unsupported(unsupported));
    }
    let ghost m = b@;
    let document: Document = b.finish();
    proof {
        assert forall|i: int| 0 <= i < document@.docs.len() implies match #[trigger] document@.docs[i] {
            crate::doc::Doc::Source(s) => s.start <= s.end <= source@.len() && valid_utf8(
                source@.subrange(s.start as int, s.end as int),
            ),
            _ => true,
        } by {
            assert(document@.docs[i] == m.docs[i]);
        }
    }
    Ok(document)
}

} // verus!
