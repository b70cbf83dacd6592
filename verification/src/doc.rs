//! Wadler-style document algebra and its printer.
//!
//! Widths are counted in fit units. A [`Doc::Indent`] may occupy a different
//! number of columns when measured than the number of spaces it emits; this
//! is an explicit printer option rather than a property of the document.
//!
//! Documents live in flat arenas: container nodes refer to ranges of an edge
//! arena, and every edge of a node points at a node built before it, so a
//! document is acyclic by construction.

use vstd::prelude::*;
use vstd::utf8::valid_utf8;
use vstd::string::StringSliceAdditionalSpecFns;
use crate::unicode::{lemma_valid_adjacent, lemma_str_valid, lemma_valid_concat, lemma_valid_append_ascii, lemma_valid_drop_last_ascii, all_ascii, char_count};

verus! {

/// Largest arena size: node IDs, edges and byte offsets are stored as `u32`.
pub const LIMIT: usize = 0xFFFF_FFFFusize;

#[derive(Clone, Copy, Debug)]
pub enum Doc {
    Text(Span),
    Source(Span),
    Group(Group),
    Indent(Fragment),
    Align(u32, Fragment),
    Line(Line),
    IfBreak { broken: Fragment, flat: Fragment },
    LineSuffix { priority: u8, contents: Fragment },
    BreakParent,
    Trim,
}

#[derive(Clone, Copy, Debug)]
pub struct Group {
    pub broken: bool,
    pub contents: Fragment,
}

/// A byte range of the document's own text or of the printed source.
#[derive(Clone, Copy, Debug, PartialEq, Eq, Structural)]
pub struct Span {
    pub start: u32,
    pub end: u32,
}

impl Span {
    fn new(start: usize, end: usize) -> (span: Self)
        requires
            start <= end <= LIMIT,
        ensures
            span.start == start,
            span.end == end,
    {
        Self { start: start as u32, end: end as u32 }
    }

    pub fn range(self) -> (range: std::ops::Range<usize>)
        ensures
            range.start == self.start,
            range.end == self.end,
    {
        std::ops::Range { start: self.start as usize, end: self.end as usize }
    }
}

/// A sequence of document node IDs in the document's edge arena.
#[derive(Clone, Copy, Debug, Default, PartialEq, Eq, Structural)]
pub struct Fragment {
    pub start: u32,
    pub end: u32,
}

impl Fragment {
    /// The fragment holding no node.
    pub fn empty() -> (fragment: Self)
        ensures
            fragment.start == 0,
            fragment.end == 0,
    {
        Self { start: 0, end: 0 }
    }

    fn new(start: usize, end: usize) -> (fragment: Self)
        requires
            start <= end <= LIMIT,
        ensures
            fragment.start == start,
            fragment.end == end,
    {
        Self { start: start as u32, end: end as u32 }
    }

    pub open spec fn len(self) -> int {
        self.end - self.start
    }

    pub fn is_empty(self) -> (empty: bool)
        ensures
            empty == (self.start == self.end),
    {
        self.start == self.end
    }

    /// The edges the fragment lists, as a range of the edge arena.
    pub fn range(self) -> (range: std::ops::Range<usize>)
        ensures
            range.start == self.start,
            range.end == self.end,
    {
        std::ops::Range { start: self.start as usize, end: self.end as usize }
    }
}

#[derive(Clone, Copy, Debug, PartialEq, Eq, Structural)]
pub enum Separator {
    Empty,
    Space,
}

impl Separator {
    pub open spec fn bytes(self) -> Seq<u8> {
        match self {
            Separator::Empty => Seq::<u8>::empty(),
            Separator::Space => seq![32u8],
        }
    }

    /// The number of spaces emitted for this separator.
    fn width(self) -> (n: usize)
        ensures
            n == self.bytes().len(),
            n <= 1,
    {
        match self {
            Separator::Empty => 0,
            Separator::Space => 1,
        }
    }
}

#[derive(Clone, Copy, Debug, PartialEq, Eq, Structural)]
pub struct Line {
    /// Emitted instead of a newline when flat.
    pub separator: Separator,
    /// A forced line always breaks and breaks every enclosing group.
    pub force: bool,
    /// A non-indenting line restarts at column zero (heredoc bodies, `__END__`).
    pub indent: bool,
}

impl Line {
    /// Nothing when flat, a newline when broken.
    pub fn soft() -> (line: Self)
        ensures
            line == (Line { separator: Separator::Empty, force: false, indent: true }),
    {
        Line { separator: Separator::Empty, force: false, indent: true }
    }

    /// A space when flat, a newline when broken.
    pub fn space() -> (line: Self)
        ensures
            line == (Line { separator: Separator::Space, force: false, indent: true }),
    {
        Line { separator: Separator::Space, force: false, indent: true }
    }

    /// A newline that breaks every enclosing group.
    pub fn hard() -> (line: Self)
        ensures
            line == (Line { separator: Separator::Space, force: true, indent: true }),
    {
        Line { separator: Separator::Space, force: true, indent: true }
    }

    /// A forced newline that restarts at column zero.
    pub fn ret() -> (line: Self)
        ensures
            line == (Line { separator: Separator::Space, force: true, indent: false }),
    {
        Line { separator: Separator::Space, force: true, indent: false }
    }
}

pub const COMMENT_PRIORITY: u8 = 1u8;

pub const HEREDOC_PRIORITY: u8 = 2u8;

/// The arenas of a document, as mathematical sequences.
pub struct DocModel {
    pub docs: Seq<Doc>,
    pub children: Seq<u32>,
    pub text: Seq<u8>,
    pub root: Fragment,
}

/// A fragment lies in the edge arena and refers only to nodes below `bound`.
pub open spec fn fragment_in(children: Seq<u32>, f: Fragment, bound: int) -> bool {
    &&& f.start <= f.end <= children.len()
    &&& forall|k: int| f.start <= k < f.end ==> #[trigger] children[k] < bound
}

/// A span of `text` that holds whole characters.
pub open spec fn text_span_in(text: Seq<u8>, s: Span) -> bool {
    s.start <= s.end <= text.len() && valid_utf8(text.subrange(s.start as int, s.end as int))
}

/// Node `i` refers only to earlier nodes and to whole characters of the text.
pub open spec fn node_ok(docs: Seq<Doc>, children: Seq<u32>, text: Seq<u8>, i: int) -> bool {
    match docs[i] {
        Doc::Text(s) => text_span_in(text, s),
        Doc::Group(g) => fragment_in(children, g.contents, i),
        Doc::Indent(f) => fragment_in(children, f, i),
        Doc::Align(_, f) => fragment_in(children, f, i),
        Doc::IfBreak { broken, flat } => fragment_in(children, broken, i) && fragment_in(
            children,
            flat,
            i,
        ),
        Doc::LineSuffix { contents, .. } => fragment_in(children, contents, i),
        _ => true,
    }
}

/// Well-formed arenas: bounded, acyclic, and every edge names a node.
pub open spec fn arenas_ok(docs: Seq<Doc>, children: Seq<u32>, text: Seq<u8>) -> bool {
    &&& docs.len() <= LIMIT
    &&& children.len() <= LIMIT
    &&& text.len() <= LIMIT
    &&& forall|i: int| 0 <= i < docs.len() ==> #[trigger] node_ok(docs, children, text, i)
    &&& forall|k: int| 0 <= k < children.len() ==> #[trigger] children[k] < docs.len()
}

impl DocModel {
    pub open spec fn wf(self) -> bool {
        &&& arenas_ok(self.docs, self.children, self.text)
        &&& fragment_in(self.children, self.root, self.docs.len() as int)
    }
}

/// Growing the arenas by appending keeps every old node well formed.
proof fn lemma_node_ok_grow(
    docs: Seq<Doc>,
    children: Seq<u32>,
    text: Seq<u8>,
    docs2: Seq<Doc>,
    children2: Seq<u32>,
    text2: Seq<u8>,
    i: int,
)
    requires
        0 <= i < docs.len() <= docs2.len(),
        children.len() <= children2.len(),
        text.len() <= text2.len(),
        docs2[i] == docs[i],
        children2.subrange(0, children.len() as int) == children,
        text2.subrange(0, text.len() as int) == text,
        node_ok(docs, children, text, i),
    ensures
        node_ok(docs2, children2, text2, i),
{
    assert forall|k: int| 0 <= k < children.len() implies #[trigger] children2[k] == children[k] by {
        assert(children2.subrange(0, children.len() as int)[k] == children2[k]);
    }
    match docs[i] {
        Doc::Text(s) => {
            assert(text2.subrange(s.start as int, s.end as int) =~= text.subrange(
                s.start as int,
                s.end as int,
            )) by {
                assert forall|k: int| 0 <= k < text.len() implies #[trigger] text2[k] == text[k] by {
                    assert(text2.subrange(0, text.len() as int)[k] == text2[k]);
                }
            }
        },
        _ => {},
    }
}

/// Appending nodes, edges and text keeps the arenas well formed, provided the
/// new nodes and edges are themselves well formed.
proof fn lemma_arenas_grow(
    docs: Seq<Doc>,
    children: Seq<u32>,
    text: Seq<u8>,
    docs2: Seq<Doc>,
    children2: Seq<u32>,
    text2: Seq<u8>,
)
    requires
        arenas_ok(docs, children, text),
        docs.len() <= docs2.len() <= LIMIT,
        children.len() <= children2.len() <= LIMIT,
        text.len() <= text2.len() <= LIMIT,
        docs2.subrange(0, docs.len() as int) == docs,
        children2.subrange(0, children.len() as int) == children,
        text2.subrange(0, text.len() as int) == text,
        forall|i: int| docs.len() <= i < docs2.len() ==> #[trigger] node_ok(docs2, children2, text2, i),
        forall|k: int| children.len() <= k < children2.len() ==> #[trigger] children2[k] < docs2.len(),
    ensures
        arenas_ok(docs2, children2, text2),
{
    assert forall|i: int| 0 <= i < docs2.len() implies #[trigger] node_ok(docs2, children2, text2, i) by {
        if i < docs.len() {
            assert(docs2.subrange(0, docs.len() as int)[i] == docs2[i]);
            assert(node_ok(docs, children, text, i));
            lemma_node_ok_grow(docs, children, text, docs2, children2, text2, i);
        }
    }
    assert forall|k: int| 0 <= k < children2.len() implies #[trigger] children2[k] < docs2.len() by {
        if k < children.len() {
            assert(children2.subrange(0, children.len() as int)[k] == children2[k]);
            assert(children[k] < docs.len());
        }
    }
}

/// Replacing one node by another well-formed node keeps the arenas well formed.
proof fn lemma_arenas_set(docs: Seq<Doc>, children: Seq<u32>, text: Seq<u8>, j: int, d: Doc)
    requires
        arenas_ok(docs, children, text),
        0 <= j < docs.len(),
        node_ok(docs.update(j, d), children, text, j),
    ensures
        arenas_ok(docs.update(j, d), children, text),
{
    let docs2 = docs.update(j, d);
    assert forall|i: int| 0 <= i < docs2.len() implies #[trigger] node_ok(docs2, children, text, i) by {
        if i != j {
            assert(node_ok(docs, children, text, i));
        }
    }
}

/// The fragments a node refers to (at most two).
pub open spec fn node_fragments(d: Doc) -> Seq<Fragment> {
    match d {
        Doc::Group(g) => seq![g.contents],
        Doc::Indent(f) => seq![f],
        Doc::Align(_, f) => seq![f],
        Doc::IfBreak { broken, flat } => seq![broken, flat],
        Doc::LineSuffix { contents, .. } => seq![contents],
        _ => Seq::empty(),
    }
}

/// The size of the tree that node `id` unfolds to: one for the node plus the
/// sizes of the nodes its fragments list. Edges that do not point to an
/// earlier node are not counted.
pub open spec fn node_weight(docs: Seq<Doc>, children: Seq<u32>, id: int) -> nat
    decreases id + 1, 0nat,
{
    if 0 <= id < docs.len() {
        match docs[id] {
            Doc::Group(g) => 1 + frag_weight(docs, children, id, g.contents.start as int, g.contents.end as int),
            Doc::Indent(f) => 1 + frag_weight(docs, children, id, f.start as int, f.end as int),
            Doc::Align(_, f) => 1 + frag_weight(docs, children, id, f.start as int, f.end as int),
            Doc::IfBreak { broken, flat } => 1 + frag_weight(docs, children, id, broken.start as int, broken.end as int)
                + frag_weight(docs, children, id, flat.start as int, flat.end as int),
            Doc::LineSuffix { contents, .. } => 1 + frag_weight(
                docs,
                children,
                id,
                contents.start as int,
                contents.end as int,
            ),
            _ => 1,
        }
    } else {
        1
    }
}

/// The summed weights of the edges `start..end` that point below `bound`.
pub open spec fn frag_weight(docs: Seq<Doc>, children: Seq<u32>, bound: int, start: int, end: int) -> nat
    decreases bound, (end - start) as nat,
{
    if 0 <= start < end && end <= children.len() && bound >= 0 {
        (if children[start] < bound {
            node_weight(docs, children, children[start] as int)
        } else {
            0
        }) + frag_weight(docs, children, bound, start + 1, end)
    } else {
        0
    }
}

/// One thing a fragment's flat reading holds: a node that stays as it is,
/// or the space a soft space line prints when flat.
pub enum FlatItem {
    Keep(u32),
    Space,
}

/// A fragment read flat: groups, indents and aligns give way to their
/// contents, an if-break to its flat branch, a soft space line to a space, a
/// soft line to nothing; every other node stays. Only edges below `bound`
/// are read.
pub open spec fn flat_reading(docs: Seq<Doc>, children: Seq<u32>, bound: int, start: int, end: int) -> Seq<FlatItem>
    decreases bound, (end - start) as nat,
{
    if 0 <= start < end && end <= children.len() && bound >= 0 {
        flat_reading(docs, children, bound, start, end - 1) + if children[end - 1] < bound {
            node_reading(docs, children, children[end - 1] as int)
        } else {
            Seq::empty()
        }
    } else {
        Seq::empty()
    }
}

/// Node `id` read flat.
pub open spec fn node_reading(docs: Seq<Doc>, children: Seq<u32>, id: int) -> Seq<FlatItem>
    decreases id + 1, 0nat,
{
    if 0 <= id < docs.len() {
        match docs[id] {
            Doc::Group(g) => flat_reading(docs, children, id, g.contents.start as int, g.contents.end as int),
            Doc::Indent(f) => flat_reading(docs, children, id, f.start as int, f.end as int),
            Doc::Align(_, f) => flat_reading(docs, children, id, f.start as int, f.end as int),
            Doc::IfBreak { flat, .. } => flat_reading(docs, children, id, flat.start as int, flat.end as int),
            Doc::Line(line) => if line.force {
                seq![FlatItem::Keep(id as u32)]
            } else if line.separator == Separator::Space {
                seq![FlatItem::Space]
            } else {
                Seq::empty()
            },
            _ => seq![FlatItem::Keep(id as u32)],
        }
    } else {
        Seq::empty()
    }
}

/// The builder after the flat items are appended to the innermost target:
/// a kept node joins it as it is, a space is appended as text.
pub open spec fn with_flat(m: BuilderModel, items: Seq<FlatItem>) -> BuilderModel
    decreases items.len(),
{
    if items.len() == 0 {
        m
    } else {
        let prev = with_flat(m, items.drop_last());
        match items.last() {
            FlatItem::Keep(id) => BuilderModel { working: prev.working.push(id), ..prev },
            FlatItem::Space => prev.with_text(seq![32u8]),
        }
    }
}

/// Appending two runs of items one after the other appends them together.
proof fn lemma_with_flat_concat(m: BuilderModel, a: Seq<FlatItem>, b: Seq<FlatItem>)
    ensures
        with_flat(with_flat(m, a), b) == with_flat(m, a + b),
    decreases b.len(),
{
    if b.len() == 0 {
        assert(a + b =~= a);
    } else {
        lemma_with_flat_concat(m, a, b.drop_last());
        assert((a + b).drop_last() =~= a + b.drop_last());
        assert((a + b).last() == b.last());
    }
}

/// The least of three integers.
pub open spec fn min3(a: int, b: int, c: int) -> int {
    let ab = if a < b {
        a
    } else {
        b
    };
    if c < ab {
        c
    } else {
        ab
    }
}

/// The two nodes agree but for the span of a `Text` node.
pub open spec fn same_shape(a: Doc, b: Doc) -> bool {
    match (a, b) {
        (Doc::Text(_), Doc::Text(_)) => true,
        _ => a == b,
    }
}

/// A node that prints the same in flat and broken mode and holds no other
/// node that could print differently.
pub open spec fn is_flat_leaf(d: Doc) -> bool {
    match d {
        Doc::Text(_) | Doc::Source(_) | Doc::LineSuffix { .. } | Doc::BreakParent | Doc::Trim => true,
        Doc::Line(line) => line.force,
        _ => false,
    }
}

/// A container's fragment weighs less than the container.
proof fn lemma_container_weight(m: BuilderModel, frozen: Seq<Doc>, children: Seq<u32>, id: int, contents: Fragment)
    requires
        m.wf(),
        m.children == children,
        0 <= id < frozen.len() <= m.docs.len(),
        same_shape(m.docs[id], frozen[id]),
        match m.docs[id] {
            Doc::Group(g) => g.contents == contents,
            Doc::Indent(f) => f == contents,
            Doc::Align(_, f) => f == contents,
            Doc::IfBreak { flat, .. } => flat == contents,
            _ => false,
        },
    ensures
        contents.start <= contents.end <= children.len(),
        forall|k: int| contents.start <= k < contents.end ==> #[trigger] children[k] < id,
        frag_weight(frozen, children, id, contents.start as int, contents.end as int) + 1 <= node_weight(frozen, children, id),
{
    assert(node_ok(m.docs, m.children, m.text, id));
    assert(frozen[id] == m.docs[id]);
}

/// A document tree stored in flat node and edge arenas. Container nodes refer
/// to ranges in `children`, so dropping a large document is constant-depth and
/// does not free one allocation per group.
#[derive(Debug)]
pub struct Document {
    docs: Vec<Doc>,
    children: Vec<u32>,
    text: Vec<u8>,
    root: Fragment,
}

impl View for Document {
    type V = DocModel;

    closed spec fn view(&self) -> DocModel {
        DocModel { docs: self.docs@, children: self.children@, text: self.text@, root: self.root }
    }
}

impl Document {
    /// Node `id`.
    pub fn node(&self, id: u32) -> (d: Doc)
        requires
            self@.wf(),
            id < self@.docs.len(),
        ensures
            d == self@.docs[id as int],
    {
        self.docs[id as usize]
    }

    /// Edge `k`: the ID of a node listed by some fragment.
    pub fn edge(&self, k: usize) -> (id: u32)
        requires
            self@.wf(),
            k < self@.children.len(),
        ensures
            id == self@.children[k as int],
            id < self@.docs.len(),
    {
        self.children[k]
    }

    /// The top-level fragment.
    pub fn root(&self) -> (root: Fragment)
        ensures
            root == self@.root,
    {
        self.root
    }

    /// The bytes of a `Text` node's span.
    pub fn text_bytes(&self, span: Span) -> (bytes: &[u8])
        requires
            span.start <= span.end <= self@.text.len(),
        ensures
            bytes@ == self@.text.subrange(span.start as int, span.end as int),
    {
        vstd::slice::slice_subrange(self.text.as_slice(), span.start as usize, span.end as usize)
    }

    /// The nodes of the top-level fragment, in order.
    pub fn root_nodes(&self) -> (nodes: Vec<Doc>)
        requires
            self@.wf(),
        ensures
            nodes@.len() == self@.root.len(),
            forall|k: int|
                0 <= k < nodes@.len() ==> #[trigger] nodes@[k] == self@.docs[self@.children[self@.root.start + k] as int],
    {
        let mut nodes: Vec<Doc> = Vec::new();
        let mut k: usize = self.root.start as usize;
        while k < self.root.end as usize
            invariant
                self@.wf(),
                self.root.start <= k <= self.root.end,
                nodes@.len() == k - self.root.start,
                forall|j: int|
                    0 <= j < nodes@.len() ==> #[trigger] nodes@[j] == self@.docs[self@.children[self@.root.start + j] as int],
            decreases self.root.end - k,
        {
            let id: u32 = self.children[k];
            nodes.push(self.docs[id as usize]);
            k = k + 1;
        }
        nodes
    }
}

struct OpenGroup {
    broken: bool,
    /// Depth of the target stack when this group was opened; used to check
    /// that it closes with its own contents.
    target_depth: usize,
}

/// The state of a [`Builder`], as mathematical sequences.
pub struct BuilderModel {
    pub docs: Seq<Doc>,
    pub children: Seq<u32>,
    pub text: Seq<u8>,
    /// IDs in every open target; `starts` delimits each target's suffix.
    pub working: Seq<u32>,
    /// The broken flag of every open group, the root first.
    pub broken: Seq<bool>,
    /// The target depth recorded by every open group, the root first.
    pub depths: Seq<usize>,
    /// Start in `working` of every open target, the root first.
    pub starts: Seq<usize>,
}

/// `BreakParent` semantics: walking outwards from the innermost open group,
/// every group is marked broken up to the first one that already was.
pub open spec fn mark_broken(flags: Seq<bool>) -> Seq<bool> {
    Seq::new(
        flags.len(),
        |i: int| flags[i] || (forall|k: int| i < k < flags.len() ==> !#[trigger] flags[k]),
    )
}

/// Whether a call of `f` on `d` may answer `b`.
pub open spec fn answers<F: Fn(&Doc) -> bool>(f: F, d: Doc, b: bool) -> bool {
    f.ensures((&d,), b)
}

/// The IDs of `ids`, in order, whose node `f` may answer `b` for.
pub open spec fn select<F: Fn(&Doc) -> bool>(f: F, docs: Seq<Doc>, ids: Seq<u32>, b: bool) -> Seq<u32>
    decreases ids.len(),
{
    if ids.len() == 0 {
        Seq::empty()
    } else {
        let rest = select(f, docs, ids.drop_last(), b);
        if answers(f, docs[ids.last() as int], b) {
            rest.push(ids.last())
        } else {
            rest
        }
    }
}

/// A deterministic predicate answers exactly what a call returned.
proof fn lemma_answer<F: Fn(&Doc) -> bool>(f: F, d: Doc, r: bool)
    requires
        f.ensures((&d,), r),
        forall|x: &Doc, a: bool, b: bool| #[trigger] f.ensures((x,), a) && #[trigger] f.ensures((x,), b) ==> a == b,
    ensures
        answers(f, d, r),
        !answers(f, d, !r),
{
    if answers(f, d, !r) {
        assert(f.ensures((&d,), !r));
    }
}

proof fn lemma_select_split_len<F: Fn(&Doc) -> bool>(f: F, docs: Seq<Doc>, ids: Seq<u32>)
    requires
        forall|x: &Doc, a: bool, b: bool| #[trigger] f.ensures((x,), a) && #[trigger] f.ensures((x,), b) ==> a == b,
    ensures
        select(f, docs, ids, true).len() + select(f, docs, ids, false).len() <= ids.len(),
    decreases ids.len(),
{
    if ids.len() > 0 {
        lemma_select_split_len(f, docs, ids.drop_last());
        let d = docs[ids.last() as int];
        if answers(f, d, true) && answers(f, d, false) {
            assert(f.ensures((&d,), true));
            assert(f.ensures((&d,), false));
        }
    }
}

proof fn lemma_select_prefix_len<F: Fn(&Doc) -> bool>(f: F, docs: Seq<Doc>, ids: Seq<u32>, b: bool, n: int)
    requires
        0 <= n <= ids.len(),
    ensures
        select(f, docs, ids.subrange(0, n), b).len() <= select(f, docs, ids, b).len(),
    decreases ids.len() - n,
{
    if n < ids.len() {
        lemma_select_prefix_len(f, docs, ids, b, n + 1);
        assert(ids.subrange(0, n + 1).drop_last() =~= ids.subrange(0, n));
    } else {
        assert(ids.subrange(0, n) =~= ids);
    }
}

proof fn lemma_select_bounded<F: Fn(&Doc) -> bool>(f: F, docs: Seq<Doc>, ids: Seq<u32>, b: bool, bound: int)
    requires
        forall|t: int| 0 <= t < ids.len() ==> #[trigger] ids[t] < bound,
    ensures
        forall|t: int| 0 <= t < select(f, docs, ids, b).len() ==> #[trigger] select(f, docs, ids, b)[t] < bound,
    decreases ids.len(),
{
    if ids.len() > 0 {
        let rest = ids.drop_last();
        assert forall|t: int| 0 <= t < rest.len() implies #[trigger] rest[t] < bound by {
            assert(rest[t] == ids[t]);
        }
        lemma_select_bounded(f, docs, rest, b, bound);
        assert(ids.last() == ids[ids.len() - 1]);
        let r = select(f, docs, ids, b);
        assert forall|t: int| 0 <= t < r.len() implies #[trigger] r[t] < bound by {
            if t < select(f, docs, rest, b).len() {
                assert(r[t] == select(f, docs, rest, b)[t]);
            }
        }
    }
}

/// `flags` over the first entries of `current`; later entries unchanged.
pub open spec fn restored(current: Seq<bool>, flags: Seq<bool>) -> Seq<bool> {
    Seq::new(current.len(), |k: int| if k < flags.len() { flags[k] } else { current[k] })
}

/// A broken group's enclosing groups are broken too.
pub open spec fn broken_monotone(flags: Seq<bool>) -> bool {
    forall|i: int, j: int| 0 <= i < j < flags.len() && #[trigger] flags[j] ==> #[trigger] flags[i]
}

/// Closing a target returns exactly what was added to it since it opened,
/// in order, and leaves the target around it as it was: with `w` the node
/// IDs added at the top level of a target pushed on `m`, popping it leaves
/// `m`'s pending nodes unchanged and the fragment holds `w`.
pub proof fn law_pop_returns_what_the_target_took(m: BuilderModel, w: Seq<u32>)
    requires
        m.wf(),
        m.children.len() + m.working.len() + w.len() <= LIMIT,
    ensures
        ({
            let t = BuilderModel { starts: m.starts.push(m.working.len() as usize), working: m.working + w, ..m };
            &&& t.sealed().working == m.working
            &&& t.sealed().starts == m.starts
            &&& t.sealed().ids_of(t.sealed_fragment()) == w
        }),
{
    let t = BuilderModel { starts: m.starts.push(m.working.len() as usize), working: m.working + w, ..m };
    assert(t.sealed().working =~= m.working);
    assert(t.sealed().starts =~= m.starts);
    assert(t.sealed_fragment().start == m.children.len());
    assert(t.sealed_fragment().end == m.children.len() + w.len());
    assert(t.sealed().children =~= m.children + w);
    assert(t.sealed().ids_of(t.sealed_fragment()) =~= w);
}

/// Closing a group adds exactly one node to the target that was current
/// when it opened, a group whose broken flag is the group's own and whose
/// contents are what was added inside it; the flags of the groups around
/// it are as they were.
pub proof fn law_close_group_adds_one_group(m: BuilderModel, w: Seq<u32>, broken: bool)
    requires
        m.wf(),
        m.children.len() + m.working.len() + w.len() <= LIMIT,
    ensures
        ({
            let t = BuilderModel {
                broken: m.broken.push(broken),
                depths: m.depths.push(m.starts.len() as usize),
                starts: m.starts.push(m.working.len() as usize),
                working: m.working + w,
                ..m
            };
            let closed = (BuilderModel { broken: t.broken.drop_last(), depths: t.depths.drop_last(), ..t.sealed() }).pushed(
                Doc::Group(Group { broken: t.broken.last(), contents: t.sealed_fragment() }),
            );
            &&& closed.working == m.working.push(m.docs.len() as u32)
            &&& closed.docs.last() == Doc::Group(Group { broken, contents: t.sealed_fragment() })
            &&& closed.ids_of(t.sealed_fragment()) == w
            &&& closed.broken == m.broken
            &&& closed.depths == m.depths
        }),
{
    let t = BuilderModel {
        broken: m.broken.push(broken),
        depths: m.depths.push(m.starts.len() as usize),
        starts: m.starts.push(m.working.len() as usize),
        working: m.working + w,
        ..m
    };
    let closed = (BuilderModel { broken: t.broken.drop_last(), depths: t.depths.drop_last(), ..t.sealed() }).pushed(
        Doc::Group(Group { broken: t.broken.last(), contents: t.sealed_fragment() }),
    );
    assert(t.sealed().working =~= m.working);
    assert(closed.working =~= m.working.push(m.docs.len() as u32));
    assert(t.sealed_fragment().start == m.children.len());
    assert(t.sealed_fragment().end == m.children.len() + w.len());
    assert(closed.children =~= m.children + w);
    assert(closed.ids_of(t.sealed_fragment()) =~= w);
    assert(closed.broken =~= m.broken);
    assert(closed.depths =~= m.depths);
}

/// Appending a built fragment adds its nodes, the same ones in order, after
/// what the current target holds, and the fragment still holds them.
pub proof fn law_append_adds_the_same_nodes(m: BuilderModel, f: Fragment)
    requires
        m.wf(),
        m.fragment_ok(f),
    ensures
        ({
            let appended = BuilderModel {
                working: m.working + m.children.subrange(f.start as int, f.end as int),
                ..m
            };
            &&& appended.working == m.working + m.ids_of(f)
            &&& appended.ids_of(f) == m.ids_of(f)
        }),
{
}

/// What a builder call does to the open groups' broken flags.
pub enum FlagStep {
    /// `open_group`.
    Open,
    /// `close_group`.
    Close,
    /// A forced line or `break_parent`.
    Break,
    /// `restore_broken_flags` with a snapshot.
    Restore(Seq<bool>),
    /// Any other call, which leaves the flags as they are.
    Other,
}

/// The flags after `steps`, from `flags`.
pub open spec fn flags_after(flags: Seq<bool>, steps: Seq<FlagStep>) -> Seq<bool>
    decreases steps.len(),
{
    if steps.len() == 0 {
        flags
    } else {
        let before = flags_after(flags, steps.drop_last());
        match steps.last() {
            FlagStep::Open => before.push(false),
            FlagStep::Close => if before.len() > 1 {
                before.drop_last()
            } else {
                before
            },
            FlagStep::Break => mark_broken(before),
            FlagStep::Restore(snapshot) => restored(before, snapshot),
            FlagStep::Other => before,
        }
    }
}

/// Whether every snapshot `steps` restores is monotone and as long as the
/// flags it replaces: a snapshot taken by `broken_flags` at that depth.
pub open spec fn restores_fit(flags: Seq<bool>, steps: Seq<FlagStep>) -> bool
    decreases steps.len(),
{
    if steps.len() == 0 {
        true
    } else {
        restores_fit(flags, steps.drop_last()) && match steps.last() {
            FlagStep::Restore(snapshot) => broken_monotone(snapshot) && snapshot.len() == flags_after(
                flags,
                steps.drop_last(),
            ).len(),
            _ => true,
        }
    }
}

/// Whatever calls a builder takes from `new`, its open groups' broken flags
/// stay monotone: a broken group's enclosing groups are broken too, where
/// each restored snapshot was one.
pub proof fn law_flags_monotone_over_calls(steps: Seq<FlagStep>)
    requires
        restores_fit(seq![false], steps),
    ensures
        broken_monotone(flags_after(seq![false], steps)),
    decreases steps.len(),
{
    if steps.len() == 0 {
        law_broken_flags_stay_monotone(seq![false], seq![false]);
    } else {
        law_flags_monotone_over_calls(steps.drop_last());
        let before = flags_after(seq![false], steps.drop_last());
        match steps.last() {
            FlagStep::Restore(snapshot) => law_broken_flags_stay_monotone(before, snapshot),
            _ => law_broken_flags_stay_monotone(before, before),
        }
    }
}

/// The open groups' broken flags stay monotone over the builder's calls:
/// `new` starts with one flag, `open_group` pushes an unbroken one,
/// `close_group` drops the last, a forced line or `break_parent` marks every
/// open group broken, and restoring a monotone snapshot of as many groups
/// restores it exactly.
pub proof fn law_broken_flags_stay_monotone(flags: Seq<bool>, snapshot: Seq<bool>)
    requires
        broken_monotone(flags),
    ensures
        broken_monotone(seq![false]),
        broken_monotone(flags.push(false)),
        flags.len() > 0 ==> broken_monotone(flags.drop_last()),
        mark_broken(flags) == Seq::new(flags.len(), |k: int| true),
        broken_monotone(mark_broken(flags)),
        broken_monotone(snapshot) && snapshot.len() == flags.len() ==> restored(flags, snapshot) == snapshot,
{
    let pushed = flags.push(false);
    assert forall|i: int, j: int| 0 <= i < j < pushed.len() && #[trigger] pushed[j] implies #[trigger] pushed[i] by {
        assert(j < flags.len());
        assert(flags[j] && flags[i]);
    }
    if flags.len() > 0 {
        let dropped = flags.drop_last();
        assert forall|i: int, j: int| 0 <= i < j < dropped.len() && #[trigger] dropped[j] implies #[trigger] dropped[i] by {
            assert(flags[j] && flags[i]);
        }
    }
    let marked = mark_broken(flags);
    assert forall|i: int| 0 <= i < flags.len() implies #[trigger] marked[i] by {
        if !flags[i] {
            assert forall|k: int| i < k < flags.len() implies !#[trigger] flags[k] by {
                if flags[k] {
                    assert(flags[i]);
                }
            }
        }
    }
    assert(marked =~= Seq::new(flags.len(), |k: int| true));
    if broken_monotone(snapshot) && snapshot.len() == flags.len() {
        assert(restored(flags, snapshot) =~= snapshot);
    }
}

impl BuilderModel {
    pub open spec fn wf(self) -> bool {
        &&& arenas_ok(self.docs, self.children, self.text)
        &&& self.children.len() + self.working.len() <= LIMIT
        &&& forall|k: int| 0 <= k < self.working.len() ==> #[trigger] self.working[k] < self.docs.len()
        &&& self.starts.len() >= 1
        &&& self.starts[0] == 0
        &&& forall|i: int, j: int|
            0 <= i <= j < self.starts.len() ==> #[trigger] self.starts[i] <= #[trigger] self.starts[j]
        &&& self.starts.last() <= self.working.len()
        &&& self.broken.len() >= 1
        &&& self.broken.len() == self.depths.len()
    }

    /// Nodes that can still be created.
    pub open spec fn node_room(self) -> int {
        LIMIT - self.docs.len()
    }

    /// Edges that can still be created, counting the pending ones.
    pub open spec fn edge_room(self) -> int {
        LIMIT - self.children.len() - self.working.len()
    }

    /// Text bytes that can still be stored.
    pub open spec fn text_room(self) -> int {
        LIMIT - self.text.len()
    }

    /// The IDs of the innermost open target.
    pub open spec fn pending(self) -> Seq<u32> {
        self.working.subrange(self.starts.last() as int, self.working.len() as int)
    }

    /// A fragment of built edges.
    pub open spec fn fragment_ok(self, f: Fragment) -> bool {
        f.start <= f.end <= self.children.len()
    }

    /// The ID the next node gets.
    pub open spec fn next_id(self) -> u32 {
        self.docs.len() as u32
    }

    /// Whether the innermost open target ends with a node of kind `Text`
    /// (`text` is true) or `Source` whose span ends at `at`.
    pub open spec fn ends_with_span(self, text: bool, at: int) -> bool {
        &&& self.working.len() > self.starts.last()
        &&& match self.docs[self.working.last() as int] {
            Doc::Text(s) => text && s.end == at,
            Doc::Source(s) => !text && s.end == at,
            _ => false,
        }
    }

    /// The span of the node that ends the innermost open target.
    pub open spec fn last_span(self) -> Span {
        match self.docs[self.working.last() as int] {
            Doc::Text(s) => s,
            Doc::Source(s) => s,
            _ => Span { start: 0, end: 0 },
        }
    }

    /// The node IDs of a fragment.
    pub open spec fn ids_of(self, f: Fragment) -> Seq<u32> {
        self.children.subrange(f.start as int, f.end as int)
    }

    /// The nodes of a fragment.
    pub open spec fn nodes_of(self, f: Fragment) -> Seq<Doc> {
        Seq::new((f.end - f.start) as nat, |k: int| self.docs[self.children[f.start + k] as int])
    }

    /// The model after `bytes` are appended as text.
    pub open spec fn with_text(self, bytes: Seq<u8>) -> BuilderModel {
        let text = self.text + bytes;
        if self.ends_with_span(true, self.text.len() as int) {
            BuilderModel {
                docs: self.docs.update(
                    self.working.last() as int,
                    Doc::Text(Span { start: self.last_span().start, end: text.len() as u32 }),
                ),
                text,
                ..self
            }
        } else {
            BuilderModel {
                text,
                ..self.pushed(Doc::Text(Span { start: self.text.len() as u32, end: text.len() as u32 }))
            }
        }
    }

    /// The model after the source span `start..end` is appended.
    pub open spec fn with_source(self, start: u32, end: u32) -> BuilderModel {
        if self.ends_with_span(false, start as int) {
            BuilderModel {
                docs: self.docs.update(
                    self.working.last() as int,
                    Doc::Source(Span { start: self.last_span().start, end }),
                ),
                ..self
            }
        } else {
            self.pushed(Doc::Source(Span { start, end }))
        }
    }

    /// The model with the open groups' broken flags replaced.
    pub open spec fn with_broken(self, broken: Seq<bool>) -> BuilderModel {
        BuilderModel { broken, ..self }
    }

    /// The model after a node is pushed onto the innermost target.
    pub open spec fn pushed(self, d: Doc) -> BuilderModel {
        BuilderModel {
            docs: self.docs.push(d),
            working: self.working.push(self.docs.len() as u32),
            ..self
        }
    }

    /// The model after the innermost target is sealed into edges.
    pub open spec fn sealed(self) -> BuilderModel {
        let start = self.starts.last() as int;
        BuilderModel {
            children: self.children + self.working.subrange(start, self.working.len() as int),
            working: self.working.subrange(0, start),
            starts: self.starts.drop_last(),
            ..self
        }
    }

    /// The fragment a sealed target becomes.
    pub open spec fn sealed_fragment(self) -> Fragment {
        Fragment {
            start: self.children.len() as u32,
            end: (self.children.len() + self.working.len() - self.starts.last()) as u32,
        }
    }
}

/// Builds a document tree in flat arenas. Groups are marked broken eagerly
/// (`BreakParent` propagation) so layouts can depend on whether the
/// enclosing group is already broken while building.
///
/// Containers are built by opening and closing them around their contents:
/// a group by `open_group` and `close_group`; an indent, an align or a
/// line suffix by `push_target` and `close_indent`, `close_align` or
/// `close_line_suffix`. An if-break builds each branch between
/// `push_target` and `pop_target`, then `close_if_break`; where the
/// enclosing group is already broken the flat branch can never print, so
/// its forced breaks are discarded by taking `broken_flags` before it and
/// `restore_broken_flags` after it, and an empty fragment stands for it.
pub struct Builder {
    docs: Vec<Doc>,
    children: Vec<u32>,
    text: Vec<u8>,
    working: Vec<u32>,
    groups: Vec<OpenGroup>,
    target_starts: Vec<usize>,
}

impl View for Builder {
    type V = BuilderModel;

    closed spec fn view(&self) -> BuilderModel {
        BuilderModel {
            docs: self.docs@,
            children: self.children@,
            text: self.text@,
            working: self.working@,
            broken: self.groups@.map_values(|g: OpenGroup| g.broken),
            depths: self.groups@.map_values(|g: OpenGroup| g.target_depth),
            starts: self.target_starts@,
        }
    }
}

impl Builder {
    pub fn new() -> (b: Self)
        ensures
            b@.wf(),
            b@.docs.len() == 0,
            b@.children.len() == 0,
            b@.text.len() == 0,
            b@.working.len() == 0,
            b@.broken == seq![false],
            b@.depths == seq![0usize],
            b@.starts == seq![0usize],
    {
        Self::with_capacity(0)
    }

    /// An empty builder; `capacity` only reserves arena space.
    pub fn with_capacity(capacity: usize) -> (b: Self)
        ensures
            b@.wf(),
            b@.docs.len() == 0,
            b@.children.len() == 0,
            b@.text.len() == 0,
            b@.working.len() == 0,
            b@.broken == seq![false],
            b@.depths == seq![0usize],
            b@.starts == seq![0usize],
    {
        let mut groups: Vec<OpenGroup> = Vec::new();
        groups.push(OpenGroup { broken: false, target_depth: 0 });
        let mut target_starts: Vec<usize> = Vec::new();
        target_starts.push(0);
        let b = Self {
            docs: Vec::with_capacity(capacity),
            children: Vec::with_capacity(capacity),
            text: Vec::new(),
            working: Vec::new(),
            groups,
            target_starts,
        };
        assert(b@.broken =~= seq![false]);
        assert(b@.depths =~= seq![0usize]);
        assert(b@.starts =~= seq![0usize]);
        b
    }

    fn push_doc(&mut self, doc: Doc)
        requires
            old(self)@.wf(),
            old(self)@.node_room() >= 1,
            old(self)@.edge_room() >= 1,
            node_ok(old(self)@.docs.push(doc), old(self)@.children, old(self)@.text, old(self)@.docs.len() as int),
        ensures
            final(self)@ == old(self)@.pushed(doc),
            final(self)@.wf(),
    {
        let ghost old_model = self@;
        let id: u32 = self.docs.len() as u32;
        self.docs.push(doc);
        self.working.push(id);
        proof {
            let m = self@;
            assert(m.docs == old_model.docs.push(doc));
            assert(m.docs.subrange(0, old_model.docs.len() as int) =~= old_model.docs);
            assert(m.children.subrange(0, old_model.children.len() as int) =~= old_model.children);
            assert(m.text.subrange(0, old_model.text.len() as int) =~= old_model.text);
            lemma_arenas_grow(
                old_model.docs,
                old_model.children,
                old_model.text,
                m.docs,
                m.children,
                m.text,
            );
            assert(m.broken =~= old_model.broken);
            assert(m.depths =~= old_model.depths);
            assert(m =~= old_model.pushed(doc));
        }
    }

    fn target_last(&self) -> (last: Option<u32>)
        requires
            self@.wf(),
        ensures
            last is Some <==> self@.working.len() > self@.starts.last(),
            last matches Some(id) ==> id == self@.working.last(),
    {
        let start: usize = self.target_starts[self.target_starts.len() - 1];
        if self.working.len() > start {
            Some(self.working[self.working.len() - 1])
        } else {
            None
        }
    }

    fn seal_target(&mut self) -> (fragment: Fragment)
        requires
            old(self)@.wf(),
            old(self)@.starts.len() >= 1,
        ensures
            final(self)@ == old(self)@.sealed(),
            fragment == old(self)@.sealed_fragment(),
            fragment.end == final(self)@.children.len(),
            final(self)@.docs == old(self)@.docs,
            final(self)@.children.len() <= LIMIT,
            arenas_ok(final(self)@.docs, final(self)@.children, final(self)@.text),
            final(self)@.children.len() + final(self)@.working.len() <= LIMIT,
            forall|k: int|
                0 <= k < final(self)@.working.len() ==> #[trigger] final(self)@.working[k] < final(self)@.docs.len(),
    {
        let ghost old_model = self@;
        let start: usize = self.target_starts.pop().unwrap();
        assert(self@.starts =~= old_model.starts.drop_last());
        assert(self@.broken =~= old_model.broken);
        assert(self@.depths =~= old_model.depths);
        let fragment_start: usize = self.children.len();
        let mut k: usize = start;
        while k < self.working.len()
            invariant
                old_model.wf(),
                start == old_model.starts.last(),
                start <= k <= self.working@.len(),
                self.working@ == old_model.working,
                self.docs@ == old_model.docs,
                self.text@ == old_model.text,
                fragment_start == old_model.children.len(),
                self@.broken == old_model.broken,
                self@.depths == old_model.depths,
                self@.starts == old_model.starts.drop_last(),
                self.children@ =~= old_model.children + old_model.working.subrange(start as int, k as int),
            decreases self.working@.len() - k,
        {
            let id: u32 = self.working[k];
            self.children.push(id);
            k = k + 1;
        }
        self.working.truncate(start);
        proof {
            let m = self@;
            assert(m.children =~= old_model.children + old_model.working.subrange(
                start as int,
                old_model.working.len() as int,
            ));
            assert(m.docs.subrange(0, m.docs.len() as int) =~= m.docs);
            assert(m.children.subrange(0, old_model.children.len() as int) =~= old_model.children);
            assert(m.text.subrange(0, m.text.len() as int) =~= m.text);
            assert forall|j: int| old_model.children.len() <= j < m.children.len() implies #[trigger] m.children[j] < m.docs.len() by {
                assert(m.children[j] == old_model.working[start + j - old_model.children.len()]);
            }
            lemma_arenas_grow(
                old_model.docs,
                old_model.children,
                old_model.text,
                m.docs,
                m.children,
                m.text,
            );
            assert(m.starts =~= old_model.starts.drop_last());
            assert(m.broken =~= old_model.broken);
            assert(m.depths =~= old_model.depths);
            assert(m =~= old_model.sealed());
        }
        Fragment::new(fragment_start, self.children.len())
    }

    /// Stores `bytes` at the end of the text arena and makes them the end of
    /// the innermost target: merged into a `Text` node that ends where they
    /// start, or as a new `Text` node.
    fn push_text(&mut self, bytes: &[u8])
        requires
            old(self)@.wf(),
            valid_utf8(bytes@),
            bytes@.len() > 0,
            old(self)@.text_room() >= bytes@.len(),
            old(self)@.node_room() >= 1,
            old(self)@.edge_room() >= 1,
        ensures
            final(self)@.wf(),
            final(self)@ == old(self)@.with_text(bytes@),
    {
        let ghost old_model = self@;
        let start: usize = self.text.len();
        let mut k: usize = 0;
        while k < bytes.len()
            invariant
                old_model.wf(),
                old_model.text_room() >= bytes@.len(),
                0 <= k <= bytes@.len(),
                start == old_model.text.len(),
                self@ == (BuilderModel { text: old_model.text + bytes@.subrange(0, k as int), ..old_model }),
            decreases bytes@.len() - k,
        {
            self.text.push(bytes[k]);
            k = k + 1;
            proof {
                assert(self@.text =~= old_model.text + bytes@.subrange(0, k as int));
                assert(self@.broken =~= old_model.broken);
                assert(self@.depths =~= old_model.depths);
            }
        }
        let end: usize = self.text.len();
        proof {
            let m = self@;
            assert(bytes@.subrange(0, bytes@.len() as int) =~= bytes@);
            assert(m.text.subrange(0, old_model.text.len() as int) =~= old_model.text);
            assert(m.docs.subrange(0, m.docs.len() as int) =~= m.docs);
            assert(m.children.subrange(0, m.children.len() as int) =~= m.children);
            lemma_arenas_grow(old_model.docs, old_model.children, old_model.text, m.docs, m.children, m.text);
            assert(m.text.subrange(start as int, end as int) =~= bytes@);
        }
        let span: Span = Span::new(start, end);
        if let Some(id) = self.target_last() {
            if let Doc::Text(previous) = self.docs[id as usize] {
                if previous.end as usize == start {
                    let merged: Span = Span { start: previous.start, end: span.end };
                    proof {
                        let m = self@;
                        assert(node_ok(m.docs, m.children, m.text, id as int));
                        lemma_valid_adjacent(m.text, previous.start as int, start as int, end as int);
                        assert(node_ok(m.docs.update(id as int, Doc::Text(merged)), m.children, m.text, id as int));
                        lemma_arenas_set(m.docs, m.children, m.text, id as int, Doc::Text(merged));
                    }
                    self.docs.set(id as usize, Doc::Text(merged));
                    proof {
                        assert(self@.broken =~= old_model.broken);
                        assert(self@.depths =~= old_model.depths);
                        assert(self@ =~= old_model.with_text(bytes@));
                    }
                    return;
                }
            }
        }
        self.push_doc(Doc::Text(span));
        proof {
            assert(self@ =~= old_model.with_text(bytes@));
        }
    }

    /// Appends text. Empty text adds nothing; text that continues the
    /// innermost target's last `Text` node extends that node.
    pub fn text(&mut self, s: &str)
        requires
            old(self)@.wf(),
            old(self)@.text_room() >= s.spec_bytes().len(),
            old(self)@.node_room() >= 1,
            old(self)@.edge_room() >= 1,
        ensures
            final(self)@.wf(),
            s.spec_bytes().len() == 0 ==> final(self)@ == old(self)@,
            s.spec_bytes().len() > 0 ==> final(self)@ == old(self)@.with_text(s.spec_bytes()),
    {
        let bytes: &[u8] = s.as_bytes();
        if bytes.len() == 0 {
            return;
        }
        proof {
            lemma_str_valid(s);
        }
        self.push_text(bytes);
    }

    /// How many more nodes, edges and text bytes the builder can take, the
    /// least of the three.
    pub fn room(&self) -> (r: usize)
        requires
            self@.wf(),
        ensures
            r <= self@.node_room(),
            r <= self@.edge_room(),
            r <= self@.text_room(),
            r == min3(self@.node_room(), self@.edge_room(), self@.text_room()),
    {
        let nodes: usize = LIMIT - self.docs.len();
        let edges: usize = LIMIT - self.children.len() - self.working.len();
        let text: usize = LIMIT - self.text.len();
        let least: usize = if nodes < edges {
            nodes
        } else {
            edges
        };
        if text < least {
            text
        } else {
            least
        }
    }

    /// Appends one ASCII byte as text, as [`Builder::text`] does.
    pub fn byte_text(&mut self, byte: u8)
        requires
            old(self)@.wf(),
            byte < 128,
            old(self)@.text_room() >= 1,
            old(self)@.node_room() >= 1,
            old(self)@.edge_room() >= 1,
        ensures
            final(self)@.wf(),
            final(self)@ == old(self)@.with_text(seq![byte]),
    {
        let bytes: [u8; 1] = [byte];
        proof {
            assert(bytes@ =~= seq![byte]);
            crate::unicode::lemma_ascii_valid(bytes@);
        }
        self.push_text(&bytes);
    }

    /// Appends text; the same as [`Builder::text`].
    pub fn text_ref(&mut self, s: &str)
        requires
            old(self)@.wf(),
            old(self)@.text_room() >= s.spec_bytes().len(),
            old(self)@.node_room() >= 1,
            old(self)@.edge_room() >= 1,
        ensures
            final(self)@.wf(),
            s.spec_bytes().len() == 0 ==> final(self)@ == old(self)@,
            s.spec_bytes().len() > 0 ==> final(self)@ == old(self)@.with_text(s.spec_bytes()),
    {
        self.text(s);
    }

    /// The text under a span of the document's own text.
    pub fn text_contents(&self, span: Span) -> (s: &str)
        requires
            self@.wf(),
            text_span_in(self@.text, span),
        ensures
            s.spec_bytes() == self@.text.subrange(span.start as int, span.end as int),
    {
        let bytes: &[u8] = vstd::slice::slice_subrange(self.text.as_slice(), span.start as usize, span.end as usize);
        match crate::unicode::str_from_utf8(bytes) {
            Some(s) => s,
            None => {
                proof {
                    assert(false);
                }
                ""
            },
        }
    }

    /// Appends a span of the printed source. An empty span adds nothing; a
    /// span that continues the innermost target's last `Source` node extends
    /// that node.
    pub fn source(&mut self, start: usize, end: usize)
        requires
            old(self)@.wf(),
            start <= end <= LIMIT,
            old(self)@.node_room() >= 1,
            old(self)@.edge_room() >= 1,
        ensures
            final(self)@.wf(),
            start == end ==> final(self)@ == old(self)@,
            start < end ==> final(self)@ == old(self)@.with_source(start as u32, end as u32),
    {
        if start == end {
            return;
        }
        let ghost old_model = self@;
        let span: Span = Span::new(start, end);
        if let Some(id) = self.target_last() {
            if let Doc::Source(previous) = self.docs[id as usize] {
                if previous.end == span.start {
                    let merged: Span = Span { start: previous.start, end: span.end };
                    proof {
                        let m = self@;
                        assert(node_ok(m.docs.update(id as int, Doc::Source(merged)), m.children, m.text, id as int));
                        lemma_arenas_set(m.docs, m.children, m.text, id as int, Doc::Source(merged));
                    }
                    self.docs.set(id as usize, Doc::Source(merged));
                    proof {
                        assert(self@.broken =~= old_model.broken);
                        assert(self@.depths =~= old_model.depths);
                        assert(self@ =~= old_model.with_source(start as u32, end as u32));
                    }
                    return;
                }
            }
        }
        self.push_doc(Doc::Source(span));
    }

    /// Appends a line. A forced line also breaks every enclosing open group
    /// (see [`Builder::break_parent`]).
    pub fn line(&mut self, line: Line)
        requires
            old(self)@.wf(),
            old(self)@.node_room() >= 2,
            old(self)@.edge_room() >= 2,
        ensures
            final(self)@.wf(),
            !line.force ==> final(self)@ == old(self)@.pushed(Doc::Line(line)),
            line.force ==> final(self)@ == old(self)@.pushed(Doc::Line(line)).pushed(Doc::BreakParent).with_broken(
                mark_broken(old(self)@.broken),
            ),
    {
        self.push_doc(Doc::Line(line));
        if line.force {
            self.break_parent();
        }
    }

    /// Appends a soft line: nothing when flat.
    pub fn soft(&mut self)
        requires
            old(self)@.wf(),
            old(self)@.node_room() >= 2,
            old(self)@.edge_room() >= 2,
        ensures
            final(self)@.wf(),
            final(self)@ == old(self)@.pushed(Doc::Line(Line { separator: Separator::Empty, force: false, indent: true })),
    {
        self.line(Line::soft());
    }

    /// Appends a line that is a space when flat.
    pub fn space(&mut self)
        requires
            old(self)@.wf(),
            old(self)@.node_room() >= 2,
            old(self)@.edge_room() >= 2,
        ensures
            final(self)@.wf(),
            final(self)@ == old(self)@.pushed(Doc::Line(Line { separator: Separator::Space, force: false, indent: true })),
    {
        self.line(Line::space());
    }

    /// Appends a forced line.
    pub fn hard(&mut self)
        requires
            old(self)@.wf(),
            old(self)@.node_room() >= 2,
            old(self)@.edge_room() >= 2,
        ensures
            final(self)@.wf(),
            final(self)@ == old(self)@.pushed(Doc::Line(Line { separator: Separator::Space, force: true, indent: true })).pushed(
                Doc::BreakParent,
            ).with_broken(mark_broken(old(self)@.broken)),
    {
        self.line(Line::hard());
    }

    /// Appends a `Trim`, which removes the trailing blanks printed before it.
    pub fn trim(&mut self)
        requires
            old(self)@.wf(),
            old(self)@.node_room() >= 1,
            old(self)@.edge_room() >= 1,
        ensures
            final(self)@.wf(),
            final(self)@ == old(self)@.pushed(Doc::Trim),
    {
        self.push_doc(Doc::Trim);
    }

    /// Appends a `BreakParent` and marks the open groups broken, from the
    /// innermost outwards up to the first one already broken.
    pub fn break_parent(&mut self)
        requires
            old(self)@.wf(),
            old(self)@.node_room() >= 1,
            old(self)@.edge_room() >= 1,
        ensures
            final(self)@.wf(),
            final(self)@ == old(self)@.pushed(Doc::BreakParent).with_broken(mark_broken(old(self)@.broken)),
    {
        let ghost flags = self@.broken;
        self.push_doc(Doc::BreakParent);
        let ghost pushed = self@;
        let mut i: usize = self.groups.len();
        while i > 0 && !self.groups[i - 1].broken
            invariant
                0 <= i <= flags.len(),
                self.groups@.len() == flags.len(),
                forall|k: int| i <= k < flags.len() ==> !#[trigger] flags[k],
                forall|k: int| 0 <= k < flags.len() ==> #[trigger] self@.broken[k] == if k < i {
                    flags[k]
                } else {
                    true
                },
                self@.depths == pushed.depths,
                self@ == pushed.with_broken(self@.broken),
            decreases i,
        {
            i = i - 1;
            let depth: usize = self.groups[i].target_depth;
            assert(self@.broken[i as int] == self.groups@[i as int].broken);
            assert(!flags[i as int]);
            let ghost prev = self@.broken;
            let ghost prev_groups = self.groups@;
            self.groups.set(i, OpenGroup { broken: true, target_depth: depth });
            proof {
                assert forall|k: int| 0 <= k < flags.len() implies #[trigger] self@.broken[k] == if k < i {
                    flags[k]
                } else {
                    true
                } by {
                    assert(self@.broken[k] == self.groups@[k].broken);
                    if k != i {
                        assert(self.groups@[k] == prev_groups[k]);
                        assert(prev[k] == prev_groups[k].broken);
                    }
                }
                assert(self@.depths =~= pushed.depths);
                assert(self@ =~= pushed.with_broken(self@.broken));
            }
        }
        proof {
            if i > 0 {
                assert(self@.broken[i - 1] == self.groups@[i - 1].broken);
            }
            assert(self@.broken =~= mark_broken(flags)) by {
                assert forall|k: int| 0 <= k < flags.len() implies #[trigger] self@.broken[k] == mark_broken(flags)[k] by {
                    if k < i {
                        assert(flags[i - 1]);
                        if k < i - 1 {
                            assert(!(forall|j: int| k < j < flags.len() ==> !#[trigger] flags[j]));
                        }
                    }
                }
            }
        }
    }

    /// Whether the innermost open group is already broken.
    pub fn current_group_broken(&self) -> (broken: bool)
        requires
            self@.wf(),
        ensures
            broken == self@.broken.last(),
    {
        self.groups[self.groups.len() - 1].broken
    }

    /// Opens a target: the nodes that follow collect into it until it is
    /// closed.
    pub fn push_target(&mut self)
        requires
            old(self)@.wf(),
        ensures
            final(self)@.wf(),
            final(self)@ == (BuilderModel { starts: old(self)@.starts.push(old(self)@.working.len() as usize), ..old(self)@ }),
    {
        let ghost old_model = self@;
        self.target_starts.push(self.working.len());
        proof {
            assert(self@.broken =~= old_model.broken);
            assert(self@.depths =~= old_model.depths);
        }
    }

    /// Closes the innermost target and returns its nodes as a fragment.
    pub fn pop_target(&mut self) -> (fragment: Fragment)
        requires
            old(self)@.wf(),
            old(self)@.starts.len() > 1,
        ensures
            final(self)@.wf(),
            final(self)@ == old(self)@.sealed(),
            fragment == old(self)@.sealed_fragment(),
    {
        let fragment = self.seal_target();
        proof {
            let m = self@;
            assert forall|i: int, j: int| 0 <= i <= j < m.starts.len() implies #[trigger] m.starts[i] <= #[trigger] m.starts[j] by {
                assert(m.starts[i] == old(self)@.starts[i]);
                assert(m.starts[j] == old(self)@.starts[j]);
            }
            assert(m.starts[0] == old(self)@.starts[0]);
            let n = old(self)@.starts.len() as int;
            assert(old(self)@.starts[n - 2] <= old(self)@.starts[n - 1]);
        }
        fragment
    }

    /// Opens a group and its target.
    pub fn open_group(&mut self)
        requires
            old(self)@.wf(),
        ensures
            final(self)@.wf(),
            final(self)@ == (BuilderModel {
                broken: old(self)@.broken.push(false),
                depths: old(self)@.depths.push(old(self)@.starts.len() as usize),
                starts: old(self)@.starts.push(old(self)@.working.len() as usize),
                ..old(self)@
            }),
            final(self)@.depths.last() == old(self)@.starts.len(),
    {
        let ghost old_model = self@;
        self.groups.push(OpenGroup { broken: false, target_depth: self.target_starts.len() });
        proof {
            assert(self@.broken =~= old_model.broken.push(false));
            assert(self@.depths =~= old_model.depths.push(old_model.starts.len() as usize));
        }
        self.push_target();
    }

    /// Whether the innermost open group was opened with the innermost target.
    pub open spec fn closes_group(m: BuilderModel) -> bool {
        &&& m.broken.len() > 1
        &&& m.starts.len() > 1
        &&& m.starts.len() == m.depths.last() + 1
    }

    /// Closes the innermost group, which must have been opened with the
    /// innermost target, and appends it with its broken flag.
    pub fn close_group(&mut self)
        requires
            old(self)@.wf(),
            Self::closes_group(old(self)@),
            old(self)@.node_room() >= 1,
            old(self)@.edge_room() >= 1,
        ensures
            final(self)@.wf(),
            final(self)@ == (BuilderModel {
                broken: old(self)@.broken.drop_last(),
                depths: old(self)@.depths.drop_last(),
                ..old(self)@.sealed()
            }).pushed(Doc::Group(Group { broken: old(self)@.broken.last(), contents: old(self)@.sealed_fragment() })),
    {
        let ghost old_model = self@;
        let contents: Fragment = self.pop_target();
        let group: OpenGroup = self.groups.pop().unwrap();
        proof {
            assert(group.broken == old_model.broken.last());
            assert(self@.broken =~= old_model.broken.drop_last());
            assert(self@.depths =~= old_model.depths.drop_last());
            let m = self@;
            assert(fragment_in(m.children, contents, m.docs.len() as int));
        }
        self.push_doc(Doc::Group(Group { broken: group.broken, contents }));
    }

    /// Closes the innermost target as an indented fragment.
    pub fn close_indent(&mut self)
        requires
            old(self)@.wf(),
            old(self)@.starts.len() > 1,
            old(self)@.node_room() >= 1,
            old(self)@.edge_room() >= 1,
        ensures
            final(self)@.wf(),
            final(self)@ == old(self)@.sealed().pushed(Doc::Indent(old(self)@.sealed_fragment())),
    {
        let contents: Fragment = self.pop_target();
        proof {
            let m = self@;
            assert(fragment_in(m.children, contents, m.docs.len() as int));
        }
        self.push_doc(Doc::Indent(contents));
    }

    /// Closes the innermost target as a fragment aligned by `units`.
    pub fn close_align(&mut self, units: usize)
        requires
            old(self)@.wf(),
            old(self)@.starts.len() > 1,
            old(self)@.node_room() >= 1,
            old(self)@.edge_room() >= 1,
            units <= u32::MAX,
        ensures
            final(self)@.wf(),
            final(self)@ == old(self)@.sealed().pushed(Doc::Align(units as u32, old(self)@.sealed_fragment())),
    {
        let contents: Fragment = self.pop_target();
        proof {
            let m = self@;
            assert(fragment_in(m.children, contents, m.docs.len() as int));
        }
        self.push_doc(Doc::Align(units as u32, contents));
    }

    /// Closes the innermost target as contents deferred to the end of the
    /// line.
    pub fn close_line_suffix(&mut self, priority: u8)
        requires
            old(self)@.wf(),
            old(self)@.starts.len() > 1,
            old(self)@.node_room() >= 1,
            old(self)@.edge_room() >= 1,
        ensures
            final(self)@.wf(),
            final(self)@ == old(self)@.sealed().pushed(Doc::LineSuffix { priority, contents: old(self)@.sealed_fragment() }),
    {
        let contents: Fragment = self.pop_target();
        proof {
            let m = self@;
            assert(fragment_in(m.children, contents, m.docs.len() as int));
        }
        self.push_doc(Doc::LineSuffix { priority, contents });
    }

    /// Snapshot of every open group's broken flag, restored after building a
    /// flat branch that can never print.
    pub fn broken_flags(&self) -> (flags: Vec<bool>)
        requires
            self@.wf(),
        ensures
            flags@ == self@.broken,
    {
        let mut flags: Vec<bool> = Vec::new();
        let mut i: usize = 0;
        while i < self.groups.len()
            invariant
                0 <= i <= self.groups@.len(),
                flags@ =~= self@.broken.subrange(0, i as int),
            decreases self.groups@.len() - i,
        {
            flags.push(self.groups[i].broken);
            i = i + 1;
            assert(flags@ =~= self@.broken.subrange(0, i as int));
        }
        assert(self@.broken.subrange(0, i as int) =~= self@.broken);
        flags
    }

    /// Sets the open groups' broken flags from a snapshot, pairing them from
    /// the root outwards; groups past the snapshot keep their flags.
    pub fn restore_broken_flags(&mut self, flags: Vec<bool>)
        requires
            old(self)@.wf(),
        ensures
            final(self)@.wf(),
            final(self)@ == old(self)@.with_broken(restored(old(self)@.broken, flags@)),
    {
        let ghost old_model = self@;
        let mut i: usize = 0;
        while i < self.groups.len() && i < flags.len()
            invariant
                0 <= i <= old_model.broken.len(),
                i <= flags@.len(),
                self.groups@.len() == old_model.broken.len(),
                forall|k: int| 0 <= k < old_model.broken.len() ==> #[trigger] self@.broken[k] == if k < i {
                    flags@[k]
                } else {
                    old_model.broken[k]
                },
                self@ == old_model.with_broken(self@.broken),
            decreases old_model.broken.len() - i,
        {
            let depth: usize = self.groups[i].target_depth;
            let ghost prev = self@.broken;
            let ghost prev_groups = self.groups@;
            self.groups.set(i, OpenGroup { broken: flags[i], target_depth: depth });
            i = i + 1;
            proof {
                assert forall|k: int| 0 <= k < old_model.broken.len() implies #[trigger] self@.broken[k] == if k < i {
                    flags@[k]
                } else {
                    old_model.broken[k]
                } by {
                    assert(self@.broken[k] == self.groups@[k].broken);
                    if k != i - 1 {
                        assert(self.groups@[k] == prev_groups[k]);
                        assert(prev[k] == prev_groups[k].broken);
                    }
                }
                assert(self@.depths =~= old_model.depths);
                assert(self@ =~= old_model.with_broken(self@.broken));
            }
        }
        assert(i == old_model.broken.len() || i == flags@.len());
        assert(self@.broken.len() == self.groups@.len());
        assert(self@.broken =~= restored(old_model.broken, flags@));
    }

    /// Appends a node that prints `broken` in a broken group and `flat` in a
    /// flat one.
    pub fn close_if_break(&mut self, broken: Fragment, flat: Fragment)
        requires
            old(self)@.wf(),
            old(self)@.fragment_ok(broken),
            old(self)@.fragment_ok(flat),
            old(self)@.node_room() >= 1,
            old(self)@.edge_room() >= 1,
        ensures
            final(self)@.wf(),
            final(self)@ == old(self)@.pushed(Doc::IfBreak { broken, flat }),
    {
        proof {
            let m = self@;
            assert(fragment_in(m.children, broken, m.docs.len() as int));
            assert(fragment_in(m.children, flat, m.docs.len() as int));
        }
        self.push_doc(Doc::IfBreak { broken, flat });
    }

    /// Creates a line fragment without propagating a forced break to the open
    /// groups. This is used for a line emitted identically by both branches of
    /// an `IfBreak`.
    pub fn line_fragment(&mut self, line: Line) -> (fragment: Fragment)
        requires
            old(self)@.wf(),
            old(self)@.node_room() >= 1,
            old(self)@.edge_room() >= 1,
        ensures
            final(self)@.wf(),
            final(self)@ == (BuilderModel {
                docs: old(self)@.docs.push(Doc::Line(line)),
                children: old(self)@.children.push(old(self)@.docs.len() as u32),
                ..old(self)@
            }),
            fragment.start == old(self)@.children.len(),
            fragment.end == old(self)@.children.len() + 1,
    {
        let ghost old_model = self@;
        let id: u32 = self.docs.len() as u32;
        self.docs.push(Doc::Line(line));
        let start: usize = self.children.len();
        self.children.push(id);
        proof {
            let m = self@;
            assert(m.docs.subrange(0, old_model.docs.len() as int) =~= old_model.docs);
            assert(m.children.subrange(0, old_model.children.len() as int) =~= old_model.children);
            assert(m.text.subrange(0, old_model.text.len() as int) =~= old_model.text);
            lemma_arenas_grow(old_model.docs, old_model.children, old_model.text, m.docs, m.children, m.text);
            assert(m.broken =~= old_model.broken);
            assert(m.depths =~= old_model.depths);
        }
        Fragment::new(start, self.children.len())
    }

    /// The nodes of a built fragment, in order.
    pub fn iter(&self, fragment: Fragment) -> (nodes: Vec<Doc>)
        requires
            self@.wf(),
            self@.fragment_ok(fragment),
        ensures
            nodes@ == self@.nodes_of(fragment),
    {
        let mut nodes: Vec<Doc> = Vec::new();
        let mut k: usize = fragment.start as usize;
        while k < fragment.end as usize
            invariant
                self@.wf(),
                self@.fragment_ok(fragment),
                fragment.start <= k <= fragment.end,
                nodes@ =~= self@.nodes_of(Fragment { start: fragment.start, end: k as u32 }),
            decreases fragment.end - k,
        {
            let id: u32 = self.children[k];
            nodes.push(self.docs[id as usize]);
            k = k + 1;
            assert(nodes@ =~= self@.nodes_of(Fragment { start: fragment.start, end: k as u32 }));
        }
        nodes
    }

    /// Whether `predicate` holds of some node of a built fragment.
    pub fn any(&self, fragment: Fragment, predicate: impl Fn(&Doc) -> bool) -> (found: bool)
        requires
            self@.wf(),
            self@.fragment_ok(fragment),
            forall|d: &Doc| #[trigger] predicate.requires((d,)),
        ensures
            found ==> exists|k: int|
                0 <= k < fragment.len() && #[trigger] predicate.ensures((&self@.nodes_of(fragment)[k],), true),
            !found ==> forall|k: int|
                0 <= k < fragment.len() ==> #[trigger] predicate.ensures((&self@.nodes_of(fragment)[k],), false),
    {
        let mut k: usize = fragment.start as usize;
        while k < fragment.end as usize
            invariant
                self@.wf(),
                self@.fragment_ok(fragment),
                fragment.start <= k <= fragment.end,
                forall|d: &Doc| #[trigger] predicate.requires((d,)),
                forall|j: int|
                    0 <= j < k - fragment.start ==> #[trigger] predicate.ensures((&self@.nodes_of(fragment)[j],), false),
            decreases fragment.end - k,
        {
            let id: u32 = self.children[k];
            let doc: &Doc = &self.docs[id as usize];
            assert(*doc == self@.nodes_of(fragment)[k - fragment.start]);
            if predicate(doc) {
                return true;
            }
            k = k + 1;
        }
        false
    }

    /// Stably partitions a built fragment into the nodes `predicate` holds of
    /// and the rest, as two new fragments. The predicate is evaluated twice
    /// per node, so it must answer the same each time.
    pub fn partition(&mut self, fragment: Fragment, predicate: impl Fn(&Doc) -> bool) -> (parts: (Fragment, Fragment))
        requires
            old(self)@.wf(),
            old(self)@.fragment_ok(fragment),
            old(self)@.edge_room() >= fragment.len(),
            forall|d: &Doc| #[trigger] predicate.requires((d,)),
            forall|d: &Doc, a: bool, b: bool|
                #[trigger] predicate.ensures((d,), a) && #[trigger] predicate.ensures((d,), b) ==> a == b,
        ensures
            final(self)@.wf(),
            final(self)@ == (BuilderModel {
                children: old(self)@.children + select(predicate, old(self)@.docs, old(self)@.ids_of(fragment), true)
                    + select(predicate, old(self)@.docs, old(self)@.ids_of(fragment), false),
                ..old(self)@
            }),
            parts.0.start == old(self)@.children.len(),
            parts.0.end == parts.1.start,
            parts.1.end == final(self)@.children.len(),
            parts.1.start == old(self)@.children.len() + select(
                predicate,
                old(self)@.docs,
                old(self)@.ids_of(fragment),
                true,
            ).len(),
    {
        let ghost old_model = self@;
        let ghost ids = old_model.ids_of(fragment);
        let ghost docs = old_model.docs;
        proof {
            lemma_select_split_len(predicate, docs, ids);
        }
        let matching_start: usize = self.children.len();
        let mut k: usize = fragment.start as usize;
        while k < fragment.end as usize
            invariant
                old_model.wf(),
                old_model.fragment_ok(fragment),
                old_model.edge_room() >= fragment.len(),
                ids == old_model.ids_of(fragment),
                docs == old_model.docs,
                fragment.start <= k <= fragment.end,
                matching_start == old_model.children.len(),
                forall|d: &Doc| #[trigger] predicate.requires((d,)),
                forall|d: &Doc, a: bool, b: bool|
                    #[trigger] predicate.ensures((d,), a) && #[trigger] predicate.ensures((d,), b) ==> a == b,
                select(predicate, docs, ids, true).len() + select(predicate, docs, ids, false).len() <= ids.len(),
                self@ == (BuilderModel {
                    children: old_model.children + select(predicate, docs, ids.subrange(0, k - fragment.start), true),
                    ..old_model
                }),
            decreases fragment.end - k,
        {
            let id: u32 = self.children[k];
            let ghost before = ids.subrange(0, k - fragment.start);
            assert(id == ids[k - fragment.start]);
            let keep: bool = predicate(&self.docs[id as usize]);
            proof {
                lemma_select_prefix_len(predicate, docs, ids, true, k - fragment.start + 1);
            }
            if keep {
                self.children.push(id);
            }
            k = k + 1;
            proof {
                let after = ids.subrange(0, k - fragment.start);
                assert(after.drop_last() =~= before);
                assert(after.last() == id);
                lemma_answer(predicate, docs[id as int], keep);
                assert(self@.children =~= old_model.children + select(predicate, docs, after, true));
                assert(self@.broken =~= old_model.broken);
                assert(self@.depths =~= old_model.depths);
            }
        }
        proof {
            assert(ids.subrange(0, fragment.len()) =~= ids);
        }
        let matching: Fragment = Fragment::new(matching_start, self.children.len());
        let other_start: usize = self.children.len();
        let ghost with_matching = self@.children;
        proof {
            assert(ids.subrange(0, fragment.len()) =~= ids);
        }
        let mut k: usize = fragment.start as usize;
        while k < fragment.end as usize
            invariant
                old_model.wf(),
                old_model.fragment_ok(fragment),
                ids == old_model.ids_of(fragment),
                docs == old_model.docs,
                fragment.start <= k <= fragment.end,
                forall|d: &Doc| #[trigger] predicate.requires((d,)),
                forall|d: &Doc, a: bool, b: bool|
                    #[trigger] predicate.ensures((d,), a) && #[trigger] predicate.ensures((d,), b) ==> a == b,
                with_matching == old_model.children + select(predicate, docs, ids, true),
                select(predicate, docs, ids, true).len() + select(predicate, docs, ids, false).len() <= ids.len(),
                old_model.edge_room() >= fragment.len(),
                self@ == (BuilderModel {
                    children: with_matching + select(predicate, docs, ids.subrange(0, k - fragment.start), false),
                    ..old_model
                }),
            decreases fragment.end - k,
        {
            let id: u32 = self.children[k];
            let ghost before = ids.subrange(0, k - fragment.start);
            assert(id == ids[k - fragment.start]);
            let keep: bool = predicate(&self.docs[id as usize]);
            proof {
                lemma_select_prefix_len(predicate, docs, ids, false, k - fragment.start + 1);
            }
            if !keep {
                self.children.push(id);
            }
            k = k + 1;
            proof {
                let after = ids.subrange(0, k - fragment.start);
                assert(after.drop_last() =~= before);
                assert(after.last() == id);
                lemma_answer(predicate, docs[id as int], keep);
                assert(self@.children =~= with_matching + select(predicate, docs, after, false));
                assert(self@.broken =~= old_model.broken);
                assert(self@.depths =~= old_model.depths);
            }
        }
        let other: Fragment = Fragment::new(other_start, self.children.len());
        proof {
            let m = self@;
            assert(ids.subrange(0, fragment.len()) =~= ids);
            let extra = select(predicate, docs, ids, true) + select(predicate, docs, ids, false);
            assert(m.children =~= old_model.children + extra);
            assert forall|t: int| 0 <= t < ids.len() implies #[trigger] ids[t] < m.docs.len() by {
                assert(ids[t] == old_model.children[fragment.start + t]);
            }
            lemma_select_bounded(predicate, docs, ids, true, m.docs.len() as int);
            lemma_select_bounded(predicate, docs, ids, false, m.docs.len() as int);
            assert forall|j: int| old_model.children.len() <= j < m.children.len() implies #[trigger] m.children[j] < m.docs.len() by {
                assert(m.children[j] == extra[j - old_model.children.len()]);
            }
            assert(m.docs.subrange(0, m.docs.len() as int) =~= m.docs);
            assert(m.children.subrange(0, old_model.children.len() as int) =~= old_model.children);
            assert(m.text.subrange(0, m.text.len() as int) =~= m.text);
            lemma_arenas_grow(old_model.docs, old_model.children, old_model.text, m.docs, m.children, m.text);
        }
        (matching, other)
    }

    /// Dissolves groups, indents and aligns, keeps the flat branch of each
    /// `IfBreak`, and turns soft lines into their flat text. The result holds
    /// only flat leaves: text, source, forced lines, line suffixes, breaks and
    /// trims.
    pub fn flatten(&mut self, docs: Fragment) -> (flat: Fragment)
        requires
            old(self)@.wf(),
            old(self)@.fragment_ok(docs),
            old(self)@.node_room() >= frag_weight(old(self)@.docs, old(self)@.children, old(self)@.docs.len() as int, docs.start as int, docs.end as int),
            old(self)@.edge_room() >= frag_weight(old(self)@.docs, old(self)@.children, old(self)@.docs.len() as int, docs.start as int, docs.end as int),
            old(self)@.text_room() >= frag_weight(old(self)@.docs, old(self)@.children, old(self)@.docs.len() as int, docs.start as int, docs.end as int),
        ensures
            final(self)@.wf(),
            final(self)@.broken == old(self)@.broken,
            final(self)@.depths == old(self)@.depths,
            final(self)@.starts == old(self)@.starts,
            final(self)@.working == old(self)@.working,
            final(self)@.children.subrange(0, old(self)@.children.len() as int) == old(self)@.children,
            flat.start == old(self)@.children.len(),
            flat.end == final(self)@.children.len(),
            forall|k: int| flat.start <= k < flat.end ==> #[trigger] is_flat_leaf(final(self)@.docs[final(self)@.children[k] as int]),
            ({
                let appended = with_flat(
                    BuilderModel { starts: old(self)@.starts.push(old(self)@.working.len() as usize), ..old(self)@ },
                    flat_reading(old(self)@.docs, old(self)@.children, old(self)@.docs.len() as int, docs.start as int, docs.end as int),
                );
                final(self)@ == appended.sealed() && flat == appended.sealed_fragment()
            }),
    {
        let ghost old_model = self@;
        self.push_target();
        let ghost pushed = self@;
        proof {
            assert(pushed.working.subrange(0, pushed.working.len() as int) =~= pushed.working);
            assert forall|i: int| 0 <= i < old_model.docs.len() implies #[trigger] same_shape(pushed.docs[i], old_model.docs[i]) by {}
            assert forall|k: int| docs.start <= k < docs.end implies #[trigger] pushed.children[k] < old_model.docs.len() by {}
        }
        self.flatten_into(docs, Ghost(old_model.docs), Ghost(old_model.docs.len() as int), Ghost(pushed));
        let ghost before_seal = self@;
        let flat: Fragment = self.pop_target();
        proof {
            let m = self@;
            assert forall|k: int| flat.start <= k < flat.end implies #[trigger] is_flat_leaf(m.docs[m.children[k] as int]) by {
                let j = old_model.working.len() + (k - flat.start);
                assert(m.children[k] == before_seal.working[j]);
            }
            assert(m.working =~= old_model.working);
            assert(m.starts =~= old_model.starts);
            assert(m.children.subrange(0, old_model.children.len() as int) =~= old_model.children);
        }
        flat
    }

    fn flatten_into(&mut self, docs: Fragment, Ghost(frozen): Ghost<Seq<Doc>>, Ghost(bound): Ghost<int>, Ghost(origin): Ghost<BuilderModel>)
        requires
            old(self)@.wf(),
            origin.wf(),
            old(self)@.children == origin.children,
            old(self)@.broken == origin.broken,
            old(self)@.depths == origin.depths,
            old(self)@.starts == origin.starts,
            origin.starts.len() >= 1,
            origin.starts.last() == origin.working.len(),
            frozen.len() <= origin.docs.len() <= old(self)@.docs.len(),
            forall|i: int| 0 <= i < frozen.len() ==> #[trigger] same_shape(old(self)@.docs[i], frozen[i]),
            old(self)@.working.len() >= origin.working.len(),
            old(self)@.working.subrange(0, origin.working.len() as int) == origin.working,
            forall|k: int|
                origin.working.len() <= k < old(self)@.working.len() ==> #[trigger] is_flat_leaf(old(self)@.docs[old(self)@.working[k] as int]),
            docs.start <= docs.end <= old(self)@.children.len(),
            0 <= bound <= frozen.len(),
            forall|k: int| docs.start <= k < docs.end ==> #[trigger] old(self)@.children[k] < bound,
            old(self)@.node_room() >= frag_weight(frozen, origin.children, bound, docs.start as int, docs.end as int),
            old(self)@.edge_room() >= frag_weight(frozen, origin.children, bound, docs.start as int, docs.end as int),
            old(self)@.text_room() >= frag_weight(frozen, origin.children, bound, docs.start as int, docs.end as int),
        ensures
            final(self)@.wf(),
            final(self)@.children == origin.children,
            final(self)@.broken == origin.broken,
            final(self)@.depths == origin.depths,
            final(self)@.starts == origin.starts,
            old(self)@.docs.len() <= final(self)@.docs.len(),
            forall|i: int| 0 <= i < frozen.len() ==> #[trigger] same_shape(final(self)@.docs[i], frozen[i]),
            final(self)@.working.len() >= old(self)@.working.len(),
            final(self)@.working.subrange(0, origin.working.len() as int) == origin.working,
            forall|k: int|
                origin.working.len() <= k < final(self)@.working.len() ==> #[trigger] is_flat_leaf(final(self)@.docs[final(self)@.working[k] as int]),
            final(self)@.docs.len() <= old(self)@.docs.len() + frag_weight(frozen, origin.children, bound, docs.start as int, docs.end as int),
            final(self)@.working.len() <= old(self)@.working.len() + frag_weight(frozen, origin.children, bound, docs.start as int, docs.end as int),
            final(self)@.text.len() <= old(self)@.text.len() + frag_weight(frozen, origin.children, bound, docs.start as int, docs.end as int),
            final(self)@ == with_flat(old(self)@, flat_reading(frozen, origin.children, bound, docs.start as int, docs.end as int)),
        decreases bound,
    {
        let ghost start_model = self@;
        let ghost total = frag_weight(frozen, origin.children, bound, docs.start as int, docs.end as int);
        let mut k: usize = docs.start as usize;
        while k < docs.end as usize
            invariant
                self@.wf(),
                origin.wf(),
                self@.children == origin.children,
                self@.broken == origin.broken,
                self@.depths == origin.depths,
                self@.starts == origin.starts,
                origin.starts.len() >= 1,
                origin.starts.last() == origin.working.len(),
                frozen.len() <= origin.docs.len() <= start_model.docs.len() <= self@.docs.len(),
                forall|i: int| 0 <= i < frozen.len() ==> #[trigger] same_shape(self@.docs[i], frozen[i]),
                self@.working.len() >= start_model.working.len(),
                start_model.working.len() >= origin.working.len(),
                self@.working.subrange(0, origin.working.len() as int) == origin.working,
                forall|j: int|
                    origin.working.len() <= j < self@.working.len() ==> #[trigger] is_flat_leaf(self@.docs[self@.working[j] as int]),
                docs.start <= k <= docs.end <= self@.children.len(),
                0 <= bound <= frozen.len(),
                forall|j: int| docs.start <= j < docs.end ==> #[trigger] self@.children[j] < bound,
                total == frag_weight(frozen, origin.children, bound, docs.start as int, docs.end as int),
                self@.docs.len() + frag_weight(frozen, origin.children, bound, k as int, docs.end as int) <= start_model.docs.len() + total,
                self@.working.len() + frag_weight(frozen, origin.children, bound, k as int, docs.end as int) <= start_model.working.len() + total,
                self@.text.len() + frag_weight(frozen, origin.children, bound, k as int, docs.end as int) <= start_model.text.len() + total,
                start_model.children == origin.children,
                start_model.node_room() >= total,
                start_model.edge_room() >= total,
                start_model.text_room() >= total,
                self@ == with_flat(start_model, flat_reading(frozen, origin.children, bound, docs.start as int, k as int)),
            decreases docs.end - k,
        {
            let id: u32 = self.children[k];
            let ghost rest = frag_weight(frozen, origin.children, bound, k as int + 1, docs.end as int);
            proof {
                assert(frag_weight(frozen, origin.children, bound, k as int, docs.end as int) == node_weight(frozen, origin.children, id as int) + rest);
                assert(same_shape(self@.docs[id as int], frozen[id as int]));
            }
            let ghost before = self@;
            let ghost items = node_reading(frozen, origin.children, id as int);
            proof {
                assert(flat_reading(frozen, origin.children, bound, docs.start as int, k + 1) == flat_reading(
                    frozen,
                    origin.children,
                    bound,
                    docs.start as int,
                    k as int,
                ) + items);
            }
            match self.docs[id as usize] {
                Doc::Group(group) => {
                    proof { lemma_container_weight(self@, frozen, origin.children, id as int, group.contents); }
                    self.flatten_into(group.contents, Ghost(frozen), Ghost(id as int), Ghost(origin));
                    proof {
                        assert(frozen[id as int] == before.docs[id as int]);
                        assert(items == flat_reading(frozen, origin.children, id as int, group.contents.start as int, group.contents.end as int));
                        assert(self@ == with_flat(before, items));
                    }
                },
                Doc::Indent(contents) => {
                    proof { lemma_container_weight(self@, frozen, origin.children, id as int, contents); }
                    self.flatten_into(contents, Ghost(frozen), Ghost(id as int), Ghost(origin));
                    proof {
                        assert(frozen[id as int] == before.docs[id as int]);
                        assert(items == flat_reading(frozen, origin.children, id as int, contents.start as int, contents.end as int));
                        assert(self@ == with_flat(before, items));
                    }
                },
                Doc::Align(_, contents) => {
                    proof { lemma_container_weight(self@, frozen, origin.children, id as int, contents); }
                    self.flatten_into(contents, Ghost(frozen), Ghost(id as int), Ghost(origin));
                    proof {
                        assert(frozen[id as int] == before.docs[id as int]);
                        assert(items == flat_reading(frozen, origin.children, id as int, contents.start as int, contents.end as int));
                        assert(self@ == with_flat(before, items));
                    }
                },
                Doc::IfBreak { flat, .. } => {
                    proof { lemma_container_weight(self@, frozen, origin.children, id as int, flat); }
                    self.flatten_into(flat, Ghost(frozen), Ghost(id as int), Ghost(origin));
                    proof {
                        assert(frozen[id as int] == before.docs[id as int]);
                        assert(items == flat_reading(frozen, origin.children, id as int, flat.start as int, flat.end as int));
                        assert(self@ == with_flat(before, items));
                    }
                },
                Doc::Line(line) if !line.force => {
                    if line.separator == Separator::Space {
                        let space: [u8; 1] = [32u8];
                        proof {
                            assert(space@ =~= seq![32u8]);
                            crate::unicode::lemma_ascii_valid(space@);
                        }
                        self.push_text(&space);
                        proof {
                            assert(frozen[id as int] == before.docs[id as int]);
                            assert(items == seq![FlatItem::Space]);
                            assert(items.drop_last() =~= Seq::<FlatItem>::empty());
                            assert(with_flat(before, items) == with_flat(before, Seq::<FlatItem>::empty()).with_text(seq![32u8]));
                            assert(self@ == before.with_text(space@));
                            assert(self@ == with_flat(before, items));
                            let m = self@;
                            assert forall|i: int| 0 <= i < frozen.len() implies #[trigger] same_shape(m.docs[i], frozen[i]) by {
                                assert(same_shape(before.docs[i], frozen[i]));
                            }
                            assert forall|j: int| origin.working.len() <= j < m.working.len() implies #[trigger] is_flat_leaf(m.docs[m.working[j] as int]) by {
                                if j < before.working.len() {
                                    assert(is_flat_leaf(before.docs[before.working[j] as int]));
                                }
                            }
                            assert(m.working.subrange(0, origin.working.len() as int) =~= before.working.subrange(0, origin.working.len() as int));
                        }
                    } else {
                        proof {
                            assert(frozen[id as int] == before.docs[id as int]);
                            assert(items =~= Seq::<FlatItem>::empty());
                            assert(with_flat(before, items) == before);
                        }
                    }
                },
                _ => {
                    self.working.push(id);
                    proof {
                        assert(same_shape(before.docs[id as int], frozen[id as int]));
                        assert(items == seq![FlatItem::Keep(id)]);
                        assert(items.drop_last() =~= Seq::<FlatItem>::empty());
                        let m = self@;
                        assert(m.broken =~= before.broken);
                        assert(m.depths =~= before.depths);
                        assert(m.working.subrange(0, origin.working.len() as int) =~= before.working.subrange(0, origin.working.len() as int));
                        assert forall|j: int| origin.working.len() <= j < m.working.len() implies #[trigger] is_flat_leaf(m.docs[m.working[j] as int]) by {
                            if j < before.working.len() {
                                assert(m.working[j] == before.working[j]);
                            }
                        }
                        assert(m == (BuilderModel { working: before.working.push(id), ..before }));
                        assert(items.last() == FlatItem::Keep(id));
                        assert(with_flat(before, Seq::<FlatItem>::empty()) == before);
                        assert(with_flat(before, items) == (BuilderModel { working: before.working.push(id), ..before }));
                    }
                },
            }
            proof {
                assert(self@ == with_flat(before, items));
                lemma_with_flat_concat(
                    start_model,
                    flat_reading(frozen, origin.children, bound, docs.start as int, k as int),
                    items,
                );
            }
            k = k + 1;
        }
    }

    /// Ends building: the pending root nodes become the document's root.
    pub fn finish(self) -> (document: Document)
        requires
            self@.wf(),
            self@.broken.len() == 1,
            self@.starts.len() == 1,
        ensures
            document@.wf(),
            document@ == (DocModel {
                docs: self@.docs,
                children: self@.children + self@.working,
                text: self@.text,
                root: Fragment {
                    start: self@.children.len() as u32,
                    end: (self@.children.len() + self@.working.len()) as u32,
                },
            }),
    {
        let ghost old_model = self@;
        let mut b = self;
        let root: Fragment = b.seal_target();
        proof {
            assert(old_model.working.subrange(0, old_model.working.len() as int) =~= old_model.working);
        }
        Document { docs: b.docs, children: b.children, text: b.text, root }
    }

    /// Appends already-built docs, e.g. contents measured in a probe.
    pub fn append(&mut self, docs: Fragment)
        requires
            old(self)@.wf(),
            old(self)@.fragment_ok(docs),
            old(self)@.edge_room() >= docs.len(),
        ensures
            final(self)@.wf(),
            final(self)@ == (BuilderModel {
                working: old(self)@.working + old(self)@.children.subrange(docs.start as int, docs.end as int),
                ..old(self)@
            }),
    {
        let ghost old_model = self@;
        let mut k: usize = docs.start as usize;
        while k < docs.end as usize
            invariant
                old_model.wf(),
                old_model.fragment_ok(docs),
                old_model.edge_room() >= docs.len(),
                docs.start <= k <= docs.end,
                self@ == (BuilderModel {
                    working: old_model.working + old_model.children.subrange(docs.start as int, k as int),
                    ..old_model
                }),
            decreases docs.end - k,
        {
            let id: u32 = self.children[k];
            self.working.push(id);
            k = k + 1;
            proof {
                assert(self@.working =~= old_model.working + old_model.children.subrange(
                    docs.start as int,
                    k as int,
                ));
                assert(self@.broken =~= old_model.broken);
                assert(self@.depths =~= old_model.depths);
            }
        }
        proof {
            let m = self@;
            assert forall|j: int| 0 <= j < m.working.len() implies #[trigger] m.working[j] < m.docs.len() by {
                if j >= old_model.working.len() {
                    assert(m.working[j] == old_model.children[docs.start + j - old_model.working.len()]);
                }
            }
        }
    }
}


// ---------------------------------------------------------------------------
// The width after the last line break.

/// Every `Source` node spans whole characters of `source`.
pub open spec fn builder_sources_fit(m: BuilderModel, source: Seq<u8>) -> bool {
    forall|i: int|
        0 <= i < m.docs.len() ==> match #[trigger] m.docs[i] {
            Doc::Source(s) => s.start <= s.end <= source.len() && valid_utf8(source.subrange(s.start as int, s.end as int)),
            _ => true,
        }
}

pub open spec fn add_width(w: usize, n: nat) -> usize {
    if w + n > usize::MAX {
        usize::MAX
    } else {
        (w + n) as usize
    }
}

/// The width after node `id` prints flat, starting from width `w`: text
/// adds its characters, a line resets the width, and containers pass their
/// contents through (an `IfBreak` its flat branch).
pub open spec fn trail_node(m: BuilderModel, source: Seq<u8>, id: int, w: usize) -> usize
    decreases id + 1, 0nat,
{
    if 0 <= id < m.docs.len() {
        match m.docs[id] {
            Doc::Text(s) => add_width(w, char_count(m.text.subrange(s.start as int, s.end as int))),
            Doc::Source(s) => add_width(w, char_count(source.subrange(s.start as int, s.end as int))),
            Doc::Line(_) => 0,
            Doc::Group(g) => trail_frag(m, source, id, g.contents.start as int, g.contents.end as int, w),
            Doc::Indent(f) => trail_frag(m, source, id, f.start as int, f.end as int, w),
            Doc::Align(_, f) => trail_frag(m, source, id, f.start as int, f.end as int, w),
            Doc::IfBreak { flat, .. } => trail_frag(m, source, id, flat.start as int, flat.end as int, w),
            _ => w,
        }
    } else {
        w
    }
}

/// The width after the edges `start..end` that point below `bound` print.
pub open spec fn trail_frag(m: BuilderModel, source: Seq<u8>, bound: int, start: int, end: int, w: usize) -> usize
    decreases bound, (end - start) as nat,
{
    if 0 <= start < end && end <= m.children.len() && bound >= 0 {
        let next = if m.children[start] < bound {
            trail_node(m, source, m.children[start] as int, w)
        } else {
            w
        };
        trail_frag(m, source, bound, start + 1, end, next)
    } else {
        w
    }
}

impl Builder {
    /// The width after the edges `start..end` print, from `width`.
    fn walk_edges(&self, bound: Ghost<int>, start: usize, end: usize, source: &[u8], width: &mut usize)
        requires
            self@.wf(),
            builder_sources_fit(self@, source@),
            start <= end <= self@.children.len(),
            0 <= bound@ <= self@.docs.len(),
            forall|k: int| start <= k < end ==> #[trigger] self@.children[k] < bound@,
        ensures
            *final(width) == trail_frag(self@, source@, bound@, start as int, end as int, *old(width)),
        decreases bound@, end - start,
    {
        let ghost w0 = *width;
        let mut k: usize = start;
        while k < end
            invariant
                self@.wf(),
                builder_sources_fit(self@, source@),
                start <= k <= end <= self@.children.len(),
                0 <= bound@ <= self@.docs.len(),
                forall|q: int| start <= q < end ==> #[trigger] self@.children[q] < bound@,
                trail_frag(self@, source@, bound@, start as int, end as int, w0) == trail_frag(
                    self@,
                    source@,
                    bound@,
                    k as int,
                    end as int,
                    *width,
                ),
            decreases end - k,
        {
            let id: u32 = self.children[k];
            self.walk_node(id, source, width);
            k = k + 1;
        }
    }

    /// The width after node `id` prints flat, from `width`.
    fn walk_node(&self, id: u32, source: &[u8], width: &mut usize)
        requires
            self@.wf(),
            builder_sources_fit(self@, source@),
            id < self@.docs.len(),
        ensures
            *final(width) == trail_node(self@, source@, id as int, *old(width)),
        decreases id + 1, 0nat,
    {
        let ghost m = self@;
        proof {
            assert(node_ok(m.docs, m.children, m.text, id as int));
        }
        match self.docs[id as usize] {
            Doc::Text(span) => {
                let bytes: &[u8] = vstd::slice::slice_subrange(self.text.as_slice(), span.start as usize, span.end as usize);
                let w: usize = crate::print::text_width(bytes);
                *width = width.saturating_add(w);
            },
            Doc::Source(span) => {
                proof {
                    assert(match m.docs[id as int] {
                        Doc::Source(s) => s.start <= s.end <= source@.len(),
                        _ => true,
                    });
                }
                let bytes: &[u8] = vstd::slice::slice_subrange(source, span.start as usize, span.end as usize);
                let w: usize = crate::print::text_width(bytes);
                *width = width.saturating_add(w);
            },
            Doc::Line(_) => {
                *width = 0;
            },
            Doc::Group(g) => {
                self.walk_edges(Ghost(id as int), g.contents.start as usize, g.contents.end as usize, source, width);
            },
            Doc::Indent(f) => {
                self.walk_edges(Ghost(id as int), f.start as usize, f.end as usize, source, width);
            },
            Doc::Align(_, f) => {
                self.walk_edges(Ghost(id as int), f.start as usize, f.end as usize, source, width);
            },
            Doc::IfBreak { flat, .. } => {
                self.walk_edges(Ghost(id as int), flat.start as usize, flat.end as usize, source, width);
            },
            _ => {},
        }
    }
}

/// The width after the pending nodes `working[start..end]` of the
/// innermost target print flat, from `w`.
pub open spec fn trail_working(m: BuilderModel, source: Seq<u8>, start: int, end: int, w: usize) -> usize
    decreases (end - start) as nat,
{
    if 0 <= start < end && end <= m.working.len() {
        trail_working(m, source, start + 1, end, trail_node(m, source, m.working[start] as int, w))
    } else {
        w
    }
}

impl Builder {
    /// The width of what the innermost target holds so far prints after
    /// its last line break, when it prints flat: a measure taken without
    /// closing the target.
    pub fn pending_width(&self, source: &[u8]) -> (width: usize)
        requires
            self@.wf(),
            builder_sources_fit(self@, source@),
        ensures
            width == trail_working(
                self@,
                source@,
                self@.starts.last() as int,
                self@.working.len() as int,
                0,
            ),
    {
        let mut width: usize = 0;
        let start: usize = self.target_starts[self.target_starts.len() - 1];
        let end: usize = self.working.len();
        let mut k: usize = start;
        proof {
            assert(self@.starts.last() == start);
        }
        while k < end
            invariant
                self@.wf(),
                builder_sources_fit(self@, source@),
                start <= k <= end,
                end == self@.working.len(),
                trail_working(self@, source@, start as int, end as int, 0) == trail_working(
                    self@,
                    source@,
                    k as int,
                    end as int,
                    width,
                ),
            decreases end - k,
        {
            let id: u32 = self.working[k];
            proof {
                assert(self@.working[k as int] == id);
            }
            self.walk_node(id, source, &mut width);
            k = k + 1;
        }
        width
    }
}

/// The width of what a built fragment prints after its last line break,
/// when it prints flat; used to measure a layout before committing to it.
pub fn trailing_width(builder: &Builder, docs: Fragment, source: &[u8]) -> (width: usize)
    requires
        builder@.wf(),
        builder@.fragment_ok(docs),
        builder_sources_fit(builder@, source@),
    ensures
        width == trail_frag(builder@, source@, builder@.docs.len() as int, docs.start as int, docs.end as int, 0),
{
    let mut width: usize = 0;
    walk_trailing_width(builder, docs, source, &mut width);
    width
}

/// Adds to `width` the width of what a built fragment prints after its last
/// line break, or resets it where the fragment holds a line.
pub fn walk_trailing_width(builder: &Builder, docs: Fragment, source: &[u8], width: &mut usize)
    requires
        builder@.wf(),
        builder@.fragment_ok(docs),
        builder_sources_fit(builder@, source@),
    ensures
        *final(width) == trail_frag(
            builder@,
            source@,
            builder@.docs.len() as int,
            docs.start as int,
            docs.end as int,
            *old(width),
        ),
{
    let bound: usize = builder.docs.len();
    builder.walk_edges(Ghost(bound as int), docs.start as usize, docs.end as usize, source, width);
}

// ---------------------------------------------------------------------------
// Laws of the builder.

/// Appending text in two pieces builds the same document as appending it at
/// once: the second piece extends the node the first one made or extended.
pub proof fn law_text_in_pieces(m: BuilderModel, x: Seq<u8>, y: Seq<u8>)
    requires
        m.wf(),
        x.len() > 0,
        y.len() > 0,
        m.text.len() + x.len() + y.len() <= LIMIT,
        m.node_room() >= 1,
    ensures
        m.with_text(x).with_text(y) == m.with_text(x + y),
{
    let a = m.with_text(x);
    assert(a.working.len() > a.starts.last());
    assert(a.working == m.working || a.working == m.working.push(m.docs.len() as u32));
    assert(a.ends_with_span(true, a.text.len() as int));
    assert(a.text + y =~= m.text + (x + y));
    let b = a.with_text(y);
    let c = m.with_text(x + y);
    if m.ends_with_span(true, m.text.len() as int) {
        assert(b.docs =~= c.docs);
    } else {
        assert(a.working.last() == m.docs.len() as u32);
        assert(b.docs =~= c.docs);
    }
}

/// Appending adjacent source spans in two calls builds the same document
/// as appending their union once.
pub proof fn law_sources_in_pieces(m: BuilderModel, a: u32, b: u32, c: u32)
    requires
        m.wf(),
        a < b < c,
    ensures
        m.with_source(a, b).with_source(b, c) == m.with_source(a, c),
{
    let first = m.with_source(a, b);
    assert(first.working.len() > first.starts.last());
    assert(first.ends_with_span(false, b as int));
    let two = first.with_source(b, c);
    let one = m.with_source(a, c);
    if m.ends_with_span(false, a as int) {
        assert(two.docs =~= one.docs);
    } else {
        assert(first.working.last() == m.docs.len() as u32);
        assert(two.docs =~= one.docs);
    }
}

/// After a forced break the innermost open group is broken, and a group
/// that was broken stays broken.
pub proof fn law_forced_break_breaks_innermost(flags: Seq<bool>)
    requires
        flags.len() >= 1,
    ensures
        mark_broken(flags).last(),
        mark_broken(flags).len() == flags.len(),
        forall|i: int| 0 <= i < flags.len() && flags[i] ==> #[trigger] mark_broken(flags)[i],
{
}

/// Restoring the broken flags saved while the same groups were open undoes
/// every change made to them since.
pub proof fn law_restore_undoes(current: Seq<bool>, saved: Seq<bool>)
    requires
        saved.len() == current.len(),
    ensures
        restored(current, saved) == saved,
{
    assert(restored(current, saved) =~= saved);
}

} // verus!
