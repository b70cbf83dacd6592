//! Attaches every comment to the node it decorates.
//!
//! A comment sharing a line with code trails the sibling that ends before
//! it. With nothing before it, it sits on the parent's *header* (`x = # c`,
//! `def foo # c`, `{ # c`): it stays on that line and the parent's first
//! group breaks so the children move down. The exceptions are a call's `(`,
//! an explicit `begin` and `#{`, after which the comment moves to its own line
//! before the first argument or statement. After the operator of a write or
//! assoc whose target is a child (`x.y = # c`, `x[i] = # c`, `key: # c`), the
//! comment heads the assignment rather than trailing the target.
//!
//! A comment on its own line leads the next sibling, except that:
//!
//! - directly inside a statement list, or next to a `StatementsNode`
//!   sibling, it becomes a *body entry* of that list;
//! - when the following sibling opens a clause (`else`, `elsif`, `rescue`,
//!   `ensure`, `when`, `in`), or there is none and the parent has a body, it
//!   is *dangling* on the parent;
//! - after the last element of anything else, it trails that element on its
//!   own line;
//! - after a `when`, `in` or `rescue` body, it joins that body;
//! - after an `else` body that `ensure` follows, it trails the `else` clause.
//!
//! A heredoc node ends at its opener, so for placement every node's range
//! extends over the heredoc bodies it contains.
//!
//! `StatementsNode`, `ArgumentsNode` and `ParametersNode` are never printed
//! as nodes, so a comment aimed at one is handed to its first or last entry.
//!
//! The syntax tree reaches this module as [`NodeFacts`]: plain values read
//! off each node, in the parser's visiting order.

use vstd::prelude::*;
use rustc_hash::{FxBuildHasher, FxHashMap};

verus! {

/// Identity of a node: byte range plus the number of its kind.
#[derive(Clone, Copy, Debug, PartialEq, Eq, Structural)]
pub struct Key {
    pub start: usize,
    pub end: usize,
    pub kind: u32,
}

impl Key {
    /// The key as a tuple of integers, the form the maps are keyed by.
    pub open spec fn id(self) -> (usize, usize, u32) {
        (self.start, self.end, self.kind)
    }

    fn as_id(&self) -> (id: (usize, usize, u32))
        ensures
            id == self.id(),
    {
        (self.start, self.end, self.kind)
    }
}

#[derive(Clone, Copy, Debug, PartialEq, Eq, Structural)]
pub struct Comment {
    pub start: usize,
    /// Excludes trailing whitespace, so `=end` is the last thing before it.
    pub end: usize,
    /// Starts a line (only whitespace precedes it).
    pub own_line: bool,
    /// `=begin`/`=end` block, printed verbatim from column zero.
    pub embdoc: bool,
}

/// Where on a node a comment goes.
#[derive(Clone, Copy, Debug, PartialEq, Eq, Structural)]
pub enum Slot {
    Leading,
    Header,
    Trailing,
}

/// The comments attached to one node: leading, then header, then trailing.
#[derive(Debug)]
pub struct Attached {
    comments: Vec<Comment>,
    leading_end: usize,
    header_end: usize,
}

impl Attached {
    #[verifier::type_invariant]
    spec fn bounded(self) -> bool {
        self.leading_end <= self.header_end <= self.comments@.len()
    }

    /// Comments before the node.
    pub closed spec fn leading_seq(self) -> Seq<Comment> {
        self.comments@.subrange(0, self.leading_end as int)
    }

    /// Same-line comments after the node's opening token.
    pub closed spec fn header_seq(self) -> Seq<Comment> {
        self.comments@.subrange(self.leading_end as int, self.header_end as int)
    }

    /// Comments after the node.
    pub closed spec fn trailing_seq(self) -> Seq<Comment> {
        self.comments@.subrange(self.header_end as int, self.comments@.len() as int)
    }

    /// The comments with `comment` added to the end of `slot`.
    pub open spec fn pushed(self, slot: Slot, comment: Comment) -> (Seq<Comment>, Seq<Comment>, Seq<Comment>) {
        match slot {
            Slot::Leading => (self.leading_seq().push(comment), self.header_seq(), self.trailing_seq()),
            Slot::Header => (self.leading_seq(), self.header_seq().push(comment), self.trailing_seq()),
            Slot::Trailing => (self.leading_seq(), self.header_seq(), self.trailing_seq().push(comment)),
        }
    }

    /// The three lists of comments.
    pub open spec fn parts(self) -> (Seq<Comment>, Seq<Comment>, Seq<Comment>) {
        (self.leading_seq(), self.header_seq(), self.trailing_seq())
    }

    /// No comment at all.
    pub fn new() -> (attached: Self)
        ensures
            attached.parts() == (Seq::<Comment>::empty(), Seq::<Comment>::empty(), Seq::<Comment>::empty()),
    {
        let attached = Attached { comments: Vec::new(), leading_end: 0, header_end: 0 };
        proof {
            assert(attached.leading_seq() =~= Seq::<Comment>::empty());
            assert(attached.header_seq() =~= Seq::<Comment>::empty());
            assert(attached.trailing_seq() =~= Seq::<Comment>::empty());
        }
        attached
    }

    /// Comments before the node.
    pub fn leading(&self) -> (comments: &[Comment])
        ensures
            comments@ == self.leading_seq(),
    {
        proof {
            use_type_invariant(self);
        }
        vstd::slice::slice_subrange(self.comments.as_slice(), 0, self.leading_end)
    }

    /// Same-line comments after the node's opening token but before its
    /// first child; printed on that line, forcing the node's first group.
    pub fn header(&self) -> (comments: &[Comment])
        ensures
            comments@ == self.header_seq(),
    {
        proof {
            use_type_invariant(self);
        }
        vstd::slice::slice_subrange(self.comments.as_slice(), self.leading_end, self.header_end)
    }

    /// Comments after the node; `own_line` ones print on the next line.
    pub fn trailing(&self) -> (comments: &[Comment])
        ensures
            comments@ == self.trailing_seq(),
    {
        proof {
            use_type_invariant(self);
        }
        vstd::slice::slice_subrange(self.comments.as_slice(), self.header_end, self.comments.len())
    }

    /// Adds `comment` after the comments already in `slot`.
    pub fn push(&mut self, slot: Slot, comment: Comment)
        ensures
            final(self).parts() == old(self).pushed(slot, comment),
    {
        proof {
            use_type_invariant(&*self);
        }
        let ghost before = *self;
        let mut taken: Attached = Attached::new();
        std::mem::swap(self, &mut taken);
        proof {
            use_type_invariant(&taken);
        }
        let Attached { mut comments, mut leading_end, mut header_end } = taken;
        let ghost c = comments@;
        let index: usize = match slot {
            Slot::Leading => leading_end,
            Slot::Header => header_end,
            Slot::Trailing => comments.len(),
        };
        if index == comments.len() {
            comments.push(comment);
        } else {
            comments.insert(index, comment);
        }
        let total: usize = comments.len();
        assert(total == c.len() + 1);
        match slot {
            Slot::Leading => {
                leading_end = leading_end + 1;
                header_end = header_end + 1;
            },
            Slot::Header => {
                header_end = header_end + 1;
            },
            Slot::Trailing => {},
        }
        *self = Attached { comments, leading_end, header_end };
        proof {
            let n = self.comments@;
            assert(n =~= c.insert(index as int, comment));
            assert(self.leading_seq() =~= before.pushed(slot, comment).0);
            assert(self.header_seq() =~= before.pushed(slot, comment).1);
            assert(self.trailing_seq() =~= before.pushed(slot, comment).2);
        }
    }
}

/// Three lists of comments with `comment` added to the end of `slot`'s.
pub open spec fn add_to_parts(parts: (Seq<Comment>, Seq<Comment>, Seq<Comment>), slot: Slot, comment: Comment) -> (
    Seq<Comment>,
    Seq<Comment>,
    Seq<Comment>,
) {
    match slot {
        Slot::Leading => (parts.0.push(comment), parts.1, parts.2),
        Slot::Header => (parts.0, parts.1.push(comment), parts.2),
        Slot::Trailing => (parts.0, parts.1, parts.2.push(comment)),
    }
}

/// The lists an `Attached` holds after `pushes`, one by one, from empty.
pub open spec fn parts_after(pushes: Seq<(Slot, Comment)>) -> (Seq<Comment>, Seq<Comment>, Seq<Comment>)
    decreases pushes.len(),
{
    if pushes.len() == 0 {
        (Seq::empty(), Seq::empty(), Seq::empty())
    } else {
        add_to_parts(parts_after(pushes.drop_last()), pushes.last().0, pushes.last().1)
    }
}

/// The comments of `pushes` made to `slot`, in push order.
pub open spec fn in_slot(pushes: Seq<(Slot, Comment)>, slot: Slot) -> Seq<Comment>
    decreases pushes.len(),
{
    if pushes.len() == 0 {
        Seq::empty()
    } else if pushes.last().0 == slot {
        in_slot(pushes.drop_last(), slot).push(pushes.last().1)
    } else {
        in_slot(pushes.drop_last(), slot)
    }
}

/// Pushing comments one by one sorts them into their slots: each list holds
/// the comments pushed to its slot, in push order, and together the three
/// hold every pushed comment exactly once. `Attached::new` starts from the
/// empty lists and `Attached::push` adds one comment as `add_to_parts` does.
pub proof fn law_pushes_fill_their_slots(pushes: Seq<(Slot, Comment)>)
    ensures
        parts_after(pushes) == (
            in_slot(pushes, Slot::Leading),
            in_slot(pushes, Slot::Header),
            in_slot(pushes, Slot::Trailing),
        ),
        in_slot(pushes, Slot::Leading).len() + in_slot(pushes, Slot::Header).len() + in_slot(
            pushes,
            Slot::Trailing,
        ).len() == pushes.len(),
    decreases pushes.len(),
{
    if pushes.len() > 0 {
        law_pushes_fill_their_slots(pushes.drop_last());
    }
}

/// An `Attached` made by `Attached::new` and then `Attached::push` of each
/// of `pushes` in turn (`states[k]` being it after `k` pushes) holds in its
/// leading, header and trailing lists exactly the comments pushed to each
/// slot, in push order.
pub proof fn law_attached_holds_its_pushes(states: Seq<Attached>, pushes: Seq<(Slot, Comment)>)
    requires
        states.len() == pushes.len() + 1,
        states[0].parts() == (Seq::<Comment>::empty(), Seq::<Comment>::empty(), Seq::<Comment>::empty()),
        forall|k: int|
            0 <= k < pushes.len() ==> #[trigger] states[k + 1].parts() == states[k].pushed(pushes[k].0, pushes[k].1),
    ensures
        states.last().parts() == parts_after(pushes),
        states.last().parts() == (
            in_slot(pushes, Slot::Leading),
            in_slot(pushes, Slot::Header),
            in_slot(pushes, Slot::Trailing),
        ),
    decreases pushes.len(),
{
    law_pushes_fill_their_slots(pushes);
    if pushes.len() > 0 {
        let n = pushes.len() - 1;
        let fewer = states.subrange(0, states.len() - 1);
        assert forall|k: int| 0 <= k < pushes.drop_last().len() implies #[trigger] fewer[k + 1].parts() == fewer[k].pushed(
            pushes.drop_last()[k].0,
            pushes.drop_last()[k].1,
        ) by {
            assert(states[k + 1].parts() == states[k].pushed(pushes[k].0, pushes[k].1));
        }
        law_attached_holds_its_pushes(fewer, pushes.drop_last());
        assert(states[n + 1].parts() == states[n].pushed(pushes[n].0, pushes[n].1));
        lemma_pushed_adds_to_parts(states[n], pushes[n].0, pushes[n].1);
    }
}

/// Adding a comment to an `Attached` adds it to its three lists.
pub proof fn lemma_pushed_adds_to_parts(a: Attached, slot: Slot, comment: Comment)
    ensures
        a.pushed(slot, comment) == add_to_parts(a.parts(), slot, comment),
{
}

/// An optional source offset. An offset is below `usize::MAX`: one more
/// than it must be a `usize`.
#[derive(Clone, Copy, Debug, PartialEq, Eq, Structural)]
pub struct Offset {
    pub value: Option<usize>,
}

/// An offset that one more than fits in a `usize`.
pub open spec fn offset_ok(offset: Option<usize>) -> bool {
    offset matches Some(v) ==> v < usize::MAX
}

impl Offset {
    pub open spec fn view(self) -> Option<usize> {
        self.value
    }

    pub fn new(offset: Option<usize>) -> (o: Self)
        requires
            offset_ok(offset),
        ensures
            o.view() == offset,
    {
        Offset { value: offset }
    }

    pub fn get(self) -> (offset: Option<usize>)
        ensures
            offset == self.view(),
    {
        self.value
    }
}

impl Default for Offset {
    /// No offset.
    fn default() -> (o: Self)
        ensures
            o.view() is None,
    {
        Offset { value: None }
    }
}


/// The node kinds placement tells apart.
#[derive(Clone, Copy, Debug, PartialEq, Eq, Structural)]
pub enum NodeKind {
    Program,
    Statements,
    Arguments,
    Parameters,
    Parentheses,
    Def,
    Class,
    Module,
    SingletonClass,
    Block,
    Lambda,
    Begin,
    If,
    Unless,
    While,
    Until,
    For,
    Case,
    CaseMatch,
    Else,
    Rescue,
    Ensure,
    When,
    In,
    EmbeddedStatements,
    Call,
    Other,
}

/// What placement reads off one syntax node.
#[derive(Clone, Copy, Debug)]
pub struct NodeFacts {
    pub key: Key,
    pub kind: NodeKind,
    /// A string node's opening (start and end) and the end of its closing.
    pub string_delimiters: Option<(usize, usize, usize)>,
    /// A `begin` node written with the keyword.
    pub begin_keyword: bool,
    /// Where a `begin` node's statements, `rescue`, `else` and `ensure` start.
    pub begin_statements: Option<usize>,
    pub begin_rescue: Option<usize>,
    pub begin_else: Option<usize>,
    pub begin_ensure: Option<usize>,
    /// A `begin` node's `else` clause when an `ensure` follows it: the
    /// clause's key and the end of its body (its statements, else its keyword).
    pub else_before_ensure: Option<(Key, usize)>,
    /// A call of the form `recv.attr = value`.
    pub attribute_write: bool,
    /// A call named `[]=`.
    pub index_write: bool,
    /// A call with a receiver.
    pub has_receiver: bool,
    /// A call's message: start and end.
    pub message: Option<(usize, usize)>,
    /// A call's closing delimiter: start and end.
    pub closing: Option<(usize, usize)>,
    /// Where a `def`'s `)` starts.
    pub def_rparen: Option<usize>,
    /// The end of the operator of a write that is not a call, or of an
    /// assoc's `=>` (its key where it has none).
    pub write_operator_end: Option<usize>,
}

/// Facts whose byte offsets the source holds.
pub open spec fn facts_fit(source_len: nat, f: NodeFacts) -> bool {
    &&& f.key.start <= source_len
    &&& f.string_delimiters matches Some((s, e, _)) ==> s <= e <= source_len
    &&& f.closing matches Some((s, e)) ==> s <= e <= source_len
    &&& offsets_bounded(f)
}

/// Every offset among the facts is below `usize::MAX`.
pub open spec fn offsets_bounded(f: NodeFacts) -> bool {
    &&& f.string_delimiters matches Some((_, _, c)) ==> c < usize::MAX
    &&& f.begin_statements matches Some(v) ==> v < usize::MAX
    &&& f.begin_rescue matches Some(v) ==> v < usize::MAX
    &&& f.begin_else matches Some(v) ==> v < usize::MAX
    &&& f.begin_ensure matches Some(v) ==> v < usize::MAX
    &&& f.else_before_ensure matches Some((_, t)) ==> t < usize::MAX
    &&& f.message matches Some((s, e)) ==> s < usize::MAX && e < usize::MAX
    &&& f.closing matches Some((s, e)) ==> s < usize::MAX && e < usize::MAX
    &&& f.def_rparen matches Some(v) ==> v < usize::MAX
    &&& f.write_operator_end matches Some(v) ==> v < usize::MAX
}

/// Every recorded `else` tail is below `usize::MAX`.
pub open spec fn tails_bounded(tails: Seq<(Key, usize)>) -> bool {
    forall|j: int| 0 <= j < tails.len() ==> #[trigger] tails[j].1 < usize::MAX
}

/// What a node's kind means for comment placement.
#[derive(Clone, Copy, Debug)]
pub struct Role {
    pub statements: bool,
    /// Never printed as a node; comments go to its first or last entry.
    pub list: bool,
    /// Has a body or clauses, so own-line comments before its closing
    /// keyword dangle on it.
    pub bodied: bool,
    /// Starts a clause of its parent (`else`, `elsif`, `rescue`, `ensure`,
    /// `when`, `in`).
    pub clause: bool,
    pub else_clause: bool,
    /// A call other than `recv.attr = value`.
    pub call: bool,
    /// `begin` with the keyword or `#{`.
    pub opens_statements: bool,
    /// End of the last heredoc body under this node.
    pub heredoc_end: Offset,
    /// Start of the gap between an `else` body and the `ensure` after it.
    pub else_tail: Offset,
    /// Start of a call's message when it has a receiver.
    pub chained_message: Offset,
    /// Prints its own parentheses.
    pub parameters: bool,
    /// End of an assignment's or assoc's operator, which a child precedes.
    pub operator_end: Offset,
    /// Start of a `def`'s or call's `)`.
    pub rparen: Offset,
    /// Where a keyword-less `BeginNode` starts its own content.
    pub content_start: Offset,
}

/// Whether `source` holds `prefix` at `at`.
pub open spec fn holds_at(source: Seq<u8>, at: int, prefix: Seq<u8>) -> bool {
    at + prefix.len() <= source.len() && source.subrange(at, at + prefix.len()) == prefix
}

pub open spec fn elsif_bytes() -> Seq<u8> {
    seq![101u8, 108u8, 115u8, 105u8, 102u8]
}

pub open spec fn heredoc_bytes() -> Seq<u8> {
    seq![60u8, 60u8]
}

/// The tail recorded last for `key`.
pub open spec fn tail_of(tails: Seq<(Key, usize)>, key: Key) -> Option<usize>
    decreases tails.len(),
{
    if tails.len() == 0 {
        None
    } else if tails.last().0 == key {
        Some(tails.last().1)
    } else {
        tail_of(tails.drop_last(), key)
    }
}

pub open spec fn min_start(a: Option<usize>, b: Option<usize>) -> Option<usize> {
    match (a, b) {
        (Some(x), Some(y)) => Some(if x <= y { x } else { y }),
        (Some(x), None) => Some(x),
        (None, y) => y,
    }
}

pub open spec fn max_end(a: Option<usize>, b: Option<usize>) -> Option<usize> {
    match (a, b) {
        (Some(x), Some(y)) => Some(if x >= y { x } else { y }),
        (Some(x), None) => Some(x),
        (None, y) => y,
    }
}

/// Where a node's heredoc body ends, for a string node opened by `<<`.
pub open spec fn heredoc_of(source: Seq<u8>, f: NodeFacts) -> Option<(usize, usize)> {
    match f.string_delimiters {
        Some((s, e, close)) => if e - s >= 2 && holds_at(source, s as int, heredoc_bytes()) {
            Some((s, close))
        } else {
            None
        },
        None => None,
    }
}

pub open spec fn is_bodied(k: NodeKind) -> bool {
    match k {
        NodeKind::Arguments | NodeKind::Parameters | NodeKind::EmbeddedStatements | NodeKind::Call
        | NodeKind::Other => false,
        _ => true,
    }
}

/// The role of a node with these facts.
pub open spec fn role_of(source: Seq<u8>, tails: Seq<(Key, usize)>, f: NodeFacts) -> Role {
    let call = f.kind == NodeKind::Call;
    Role {
        statements: f.kind == NodeKind::Statements,
        list: f.kind == NodeKind::Statements || f.kind == NodeKind::Arguments || f.kind == NodeKind::Parameters,
        bodied: is_bodied(f.kind),
        clause: match f.kind {
            NodeKind::Else | NodeKind::Rescue | NodeKind::Ensure | NodeKind::When | NodeKind::In => true,
            NodeKind::If => holds_at(source, f.key.start as int, elsif_bytes()),
            _ => false,
        },
        else_clause: f.kind == NodeKind::Else,
        call: call && !f.attribute_write,
        opens_statements: f.kind == NodeKind::EmbeddedStatements || (f.kind == NodeKind::Begin && f.begin_keyword),
        heredoc_end: Offset {
            value: match heredoc_of(source, f) {
                Some((_, close)) => Some(close),
                None => None,
            },
        },
        else_tail: Offset { value: tail_of(tails, f.key) },
        chained_message: Offset {
            value: if call && f.has_receiver {
                match f.message {
                    Some((s, _)) => Some(s),
                    None => None,
                }
            } else {
                None
            },
        },
        parameters: f.kind == NodeKind::Parameters,
        operator_end: Offset {
            value: if call {
                if f.index_write {
                    match f.closing {
                        Some((_, e)) => Some(e),
                        None => None,
                    }
                } else if f.attribute_write {
                    match f.message {
                        Some((_, e)) => Some(e),
                        None => None,
                    }
                } else {
                    None
                }
            } else {
                f.write_operator_end
            },
        },
        rparen: Offset {
            value: if f.kind == NodeKind::Def {
                f.def_rparen
            } else if call {
                match f.closing {
                    Some((s, e)) => if e == s + 1 && source[s as int] == 41u8 {
                        Some(s)
                    } else {
                        None
                    },
                    None => None,
                }
            } else {
                None
            },
        },
        content_start: Offset {
            value: if f.kind == NodeKind::Begin && !f.begin_keyword {
                min_start(
                    min_start(min_start(f.begin_statements, f.begin_rescue), f.begin_else),
                    f.begin_ensure,
                )
            } else {
                None
            },
        },
    }
}

/// Whether `source` holds `prefix` at `at`.
fn starts_with_at(source: &[u8], at: usize, prefix: &[u8]) -> (found: bool)
    requires
        at <= source@.len(),
    ensures
        found == holds_at(source@, at as int, prefix@),
{
    let total: usize = source.len();
    if total - at < prefix.len() {
        return false;
    }
    let mut k: usize = 0;
    while k < prefix.len()
        invariant
            total == source@.len(),
            at + prefix@.len() <= source@.len(),
            k <= prefix@.len(),
            forall|j: int| 0 <= j < k ==> #[trigger] prefix@[j] == source@[at + j],
        decreases prefix.len() - k,
    {
        if source[at + k] != prefix[k] {
            proof {
                assert(source@.subrange(at as int, at + prefix@.len())[k as int] != prefix@[k as int]);
            }
            return false;
        }
        k = k + 1;
    }
    proof {
        assert(source@.subrange(at as int, at + prefix@.len()) =~= prefix@);
    }
    true
}

fn min_offset(a: Option<usize>, b: Option<usize>) -> (m: Option<usize>)
    ensures
        m == min_start(a, b),
{
    match (a, b) {
        (Some(x), Some(y)) => Some(if x <= y { x } else { y }),
        (Some(x), None) => Some(x),
        (None, y) => y,
    }
}

fn max_offset(a: Option<usize>, b: Option<usize>) -> (m: Option<usize>)
    ensures
        m == max_end(a, b),
{
    match (a, b) {
        (Some(x), Some(y)) => Some(if x >= y { x } else { y }),
        (Some(x), None) => Some(x),
        (None, y) => y,
    }
}

/// The opening offset and body end of a string node opened by `<<`.
fn heredoc_range(source: &[u8], facts: &NodeFacts) -> (range: Option<(usize, usize)>)
    requires
        facts_fit(source@.len(), *facts),
    ensures
        range == heredoc_of(source@, *facts),
{
    match facts.string_delimiters {
        Some((start, end, close)) => {
            let opener: [u8; 2] = [60u8, 60u8];
            if end - start >= 2 && starts_with_at(source, start, opener.as_slice()) {
                proof {
                    assert(opener@ =~= heredoc_bytes());
                }
                Some((start, close))
            } else {
                proof {
                    assert(opener@ =~= heredoc_bytes());
                }
                None
            }
        },
        None => None,
    }
}

/// The tail recorded last for `key`.
fn find_tail(tails: &Vec<(Key, usize)>, key: Key) -> (tail: Option<usize>)
    requires
        tails_bounded(tails@),
    ensures
        tail == tail_of(tails@, key),
        offset_ok(tail),
{
    let mut k: usize = tails.len();
    proof {
        assert(tails@.subrange(0, k as int) =~= tails@);
    }
    while k > 0
        invariant
            k <= tails@.len(),
            tail_of(tails@, key) == tail_of(tails@.subrange(0, k as int), key),
            tails_bounded(tails@),
        decreases k,
    {
        let (candidate, tail) = tails[k - 1];
        proof {
            let s = tails@.subrange(0, k as int);
            assert(s.last() == tails@[k - 1]);
            assert(s.drop_last() =~= tails@.subrange(0, k - 1));
        }
        if candidate == key {
            proof {
                assert(tails@[k - 1].1 == tail);
            }
            return Some(tail);
        }
        k = k - 1;
    }
    None
}

/// The role of a node, given the source and the `else` tails seen so far.
fn role_for(source: &[u8], tails: &Vec<(Key, usize)>, facts: &NodeFacts) -> (role: Role)
    requires
        facts_fit(source@.len(), *facts),
        tails_bounded(tails@),
    ensures
        role == role_of(source@, tails@, *facts),
{
    let call: bool = facts.kind == NodeKind::Call;
    let statements: bool = facts.kind == NodeKind::Statements;
    let elsif: [u8; 5] = [101u8, 108u8, 115u8, 105u8, 102u8];
    let clause: bool = match facts.kind {
        NodeKind::Else | NodeKind::Rescue | NodeKind::Ensure | NodeKind::When | NodeKind::In => true,
        NodeKind::If => starts_with_at(source, facts.key.start, elsif.as_slice()),
        _ => false,
    };
    proof {
        assert(elsif@ =~= elsif_bytes());
    }
    let bodied: bool = match facts.kind {
        NodeKind::Arguments | NodeKind::Parameters | NodeKind::EmbeddedStatements | NodeKind::Call
        | NodeKind::Other => false,
        _ => true,
    };
    let heredoc_end: Option<usize> = match heredoc_range(source, facts) {
        Some((_, close)) => Some(close),
        None => None,
    };
    let chained_message: Option<usize> = if call && facts.has_receiver {
        match facts.message {
            Some((start, _)) => Some(start),
            None => None,
        }
    } else {
        None
    };
    let operator_end: Option<usize> = if call {
        if facts.index_write {
            match facts.closing {
                Some((_, end)) => Some(end),
                None => None,
            }
        } else if facts.attribute_write {
            match facts.message {
                Some((_, end)) => Some(end),
                None => None,
            }
        } else {
            None
        }
    } else {
        facts.write_operator_end
    };
    let rparen: Option<usize> = if facts.kind == NodeKind::Def {
        facts.def_rparen
    } else if call {
        match facts.closing {
            Some((start, end)) => if end - start == 1 && source[start] == 41u8 {
                Some(start)
            } else {
                None
            },
            None => None,
        }
    } else {
        None
    };
    let content_start: Option<usize> = if facts.kind == NodeKind::Begin && !facts.begin_keyword {
        min_offset(
            min_offset(min_offset(facts.begin_statements, facts.begin_rescue), facts.begin_else),
            facts.begin_ensure,
        )
    } else {
        None
    };
    Role {
        statements,
        list: statements || facts.kind == NodeKind::Arguments || facts.kind == NodeKind::Parameters,
        bodied,
        clause,
        else_clause: facts.kind == NodeKind::Else,
        call: call && !facts.attribute_write,
        opens_statements: facts.kind == NodeKind::EmbeddedStatements || (facts.kind == NodeKind::Begin
            && facts.begin_keyword),
        heredoc_end: Offset::new(heredoc_end),
        else_tail: Offset::new(find_tail(tails, facts.key)),
        chained_message: Offset::new(chained_message),
        parameters: facts.kind == NodeKind::Parameters,
        operator_end: Offset::new(operator_end),
        rparen: Offset::new(rparen),
        content_start: Offset::new(content_start),
    }
}


/// Marks a missing child or sibling while the tree is built.
pub const NO_INDEX: usize = usize::MAX;

#[derive(Clone, Copy, Debug)]
pub struct TreeNode {
    pub key: Key,
    pub role: Role,
    /// While building, the most recently entered child; once indexed, where
    /// the node's children start in `Tree::children`.
    pub child_start: usize,
    /// While building, the previously entered sibling; once indexed, the
    /// number of children.
    pub child_count: usize,
}

/// How far a node reaches: its end, or the end of a heredoc body under it.
pub open spec fn effective_end(n: TreeNode) -> usize {
    match n.role.heredoc_end.view() {
        Some(e) => if e > n.key.end {
            e
        } else {
            n.key.end
        },
        None => n.key.end,
    }
}

/// The syntax tree as placement sees it.
pub struct Tree<'a> {
    source: &'a [u8],
    nodes: Vec<TreeNode>,
    /// Every node's children in source order, grouped by parent.
    children: Vec<usize>,
    /// Maximum effective end through each child prefix.
    child_max_ends: Vec<usize>,
    /// `else` clauses followed by `ensure`, with the end of their body.
    else_tails: Vec<(Key, usize)>,
    stack: Vec<usize>,
    heredoc_openings: Vec<usize>,
    /// Each node's parent, or -1 at the top.
    parents: Ghost<Seq<int>>,
}

/// The siblings linked from `c`: `c`, then the sibling entered before it,
/// and so on.
pub open spec fn chain(nodes: Seq<TreeNode>, c: usize) -> Seq<usize>
    decreases c,
{
    if c >= nodes.len() {
        Seq::empty()
    } else if nodes[c as int].child_count < c {
        seq![c] + chain(nodes, nodes[c as int].child_count)
    } else {
        seq![c]
    }
}

/// Node `i`'s child links reach exactly the nodes whose parent it is.
pub open spec fn links_children(nodes: Seq<TreeNode>, parents: Seq<int>, i: int) -> bool {
    forall|c: usize|
        #![trigger parents[c as int]]
        #![trigger chain(nodes, nodes[i].child_start).contains(c)]
        c < nodes.len() ==> (parents[c as int] == i <==> chain(nodes, nodes[i].child_start).contains(c))
}

/// Node `i`'s entries in `children` are exactly the nodes whose parent it
/// is, each once.
pub open spec fn lists_children(children: Seq<usize>, nodes: Seq<TreeNode>, parents: Seq<int>, i: int) -> bool {
    &&& kids(children, nodes, i).no_duplicates()
    &&& forall|c: usize|
        #![trigger parents[c as int]]
        #![trigger kids(children, nodes, i).contains(c)]
        c < nodes.len() ==> (parents[c as int] == i <==> kids(children, nodes, i).contains(c))
}

/// A chain reads only the sibling links of the nodes it starts at or below.
proof fn lemma_chain_frame(a: Seq<TreeNode>, b: Seq<TreeNode>, c: usize)
    requires
        a.len() <= b.len(),
        forall|j: int| 0 <= j < a.len() ==> (#[trigger] a[j]).child_count == b[j].child_count,
        c < a.len() || c >= b.len(),
    ensures
        chain(a, c) == chain(b, c),
    decreases c,
{
    if c < a.len() {
        assert(a[c as int].child_count == b[c as int].child_count);
        let next = a[c as int].child_count;
        if next < c {
            lemma_chain_frame(a, b, next);
        }
    }
}

/// A chain holds nodes only.
proof fn lemma_chain_bounded(nodes: Seq<TreeNode>, c: usize)
    ensures
        forall|k: int| 0 <= k < chain(nodes, c).len() ==> #[trigger] chain(nodes, c)[k] < nodes.len(),
    decreases c,
{
    if c < nodes.len() && nodes[c as int].child_count < c {
        let next = nodes[c as int].child_count;
        lemma_chain_bounded(nodes, next);
        let ch = chain(nodes, c);
        assert forall|k: int| 0 <= k < ch.len() implies #[trigger] ch[k] < nodes.len() by {
            if k > 0 {
                assert(ch[k] == chain(nodes, next)[k - 1]);
            }
        }
    }
}

/// Entering node `index` as the newest child of `q[index]` (or at the top)
/// keeps every node's child links reaching exactly its children.
proof fn lemma_links_after_enter(
    old_nodes: Seq<TreeNode>,
    n: Seq<TreeNode>,
    p: Seq<int>,
    q: Seq<int>,
    index: usize,
    next_sibling: usize,
)
    requires
        old_nodes.len() == index,
        n.len() == index + 1,
        index + 1 < NO_INDEX,
        p.len() == index,
        q.len() == index + 1,
        forall|j: int| 0 <= j < index ==> #[trigger] q[j] == p[j],
        forall|j: int| 0 <= j < index + 1 ==> -1 <= #[trigger] q[j] < j,
        forall|i: int| 0 <= i < index ==> #[trigger] links_children(old_nodes, p, i),
        forall|j: int| 0 <= j < index ==> (#[trigger] old_nodes[j]).child_count == n[j].child_count,
        forall|j: int| 0 <= j < index && j != q[index as int] ==> (#[trigger] n[j]).child_start == old_nodes[j].child_start,
        q[index as int] >= 0 ==> n[q[index as int]].child_start == index && old_nodes[q[index as int]].child_start
            == next_sibling,
        forall|j: int| 0 <= j < index ==> (#[trigger] old_nodes[j]).child_start == NO_INDEX || old_nodes[j].child_start < index,
        n[index as int].child_start == NO_INDEX,
        n[index as int].child_count == next_sibling,
        next_sibling == NO_INDEX || next_sibling < index,
    ensures
        forall|i: int| 0 <= i < index + 1 ==> #[trigger] links_children(n, q, i),
{
    let par: int = q[index as int];
    assert forall|i: int| 0 <= i < n.len() implies #[trigger] links_children(n, q, i) by {
        if i == index {
            assert(chain(n, n[i].child_start) =~= Seq::<usize>::empty());
            assert forall|c: usize| c < n.len() implies (q[c as int] == i <==> chain(n, n[i].child_start).contains(c)) by {
            }
        } else if i == par {
            assert(links_children(old_nodes, p, i));
            let old_start = old_nodes[i].child_start;
            lemma_chain_frame(old_nodes, n, old_start);
            lemma_chain_bounded(old_nodes, old_start);
            let rest = chain(old_nodes, old_start);
            let nc = chain(n, index);
            assert(nc =~= seq![index] + rest) by {
                if next_sibling >= index {
                    assert(rest =~= Seq::<usize>::empty());
                }
            }
            assert forall|c: usize| c < n.len() implies (q[c as int] == i <==> nc.contains(c)) by {
                if c == index {
                    assert(nc[0] == index);
                } else {
                    assert(q[c as int] == p[c as int]);
                    if rest.contains(c) {
                        let k = choose|k: int| 0 <= k < rest.len() && rest[k] == c;
                        assert(nc[k + 1] == c);
                    }
                    if nc.contains(c) {
                        let k = choose|k: int| 0 <= k < nc.len() && nc[k] == c;
                        assert(k > 0);
                        assert(rest[k - 1] == c);
                    }
                }
            }
        } else {
            assert(n[i].child_start == old_nodes[i].child_start);
            assert(links_children(old_nodes, p, i));
            lemma_chain_frame(old_nodes, n, n[i].child_start);
            lemma_chain_bounded(old_nodes, n[i].child_start);
            let oc = chain(old_nodes, n[i].child_start);
            assert forall|c: usize| c < n.len() implies (q[c as int] == i <==> oc.contains(c)) by {
                if c == index {
                    if oc.contains(c) {
                        let k = choose|k: int| 0 <= k < oc.len() && oc[k] == c;
                        assert(oc[k] < old_nodes.len());
                    }
                } else {
                    assert(q[c as int] == p[c as int]);
                }
            }
        }
    }
}

/// Following sibling links from a child of `i` visits children of `i` only,
/// each at most once, in decreasing order.
proof fn lemma_chain_siblings(nodes: Seq<TreeNode>, parents: Seq<int>, i: int, c: usize)
    requires
        parents.len() == nodes.len(),
        forall|x: int|
            0 <= x < nodes.len() ==> (#[trigger] nodes[x]).child_count == NO_INDEX || (nodes[x].child_count < x
                && parents[nodes[x].child_count as int] == parents[x]),
        nodes.len() < NO_INDEX,
        c == NO_INDEX || (c < nodes.len() && parents[c as int] == i),
    ensures
        forall|k: int| 0 <= k < chain(nodes, c).len() ==> #[trigger] chain(nodes, c)[k] < nodes.len() && parents[chain(nodes, c)[k] as int] == i && chain(nodes, c)[k] <= c,
        forall|k: int, l: int| 0 <= k < l < chain(nodes, c).len() ==> #[trigger] chain(nodes, c)[k] > #[trigger] chain(nodes, c)[l],
        chain(nodes, c).no_duplicates(),
    decreases c,
{
    let ch = chain(nodes, c);
    if c < nodes.len() {
        let next = nodes[c as int].child_count;
        if next < c {
            lemma_chain_siblings(nodes, parents, i, next);
            let rest = chain(nodes, next);
            assert(ch == seq![c] + rest);
            assert forall|k: int| 0 <= k < ch.len() implies #[trigger] ch[k] < nodes.len() && parents[ch[k] as int] == i && ch[k] <= c by {
                if k > 0 {
                    assert(ch[k] == rest[k - 1]);
                }
            }
            assert forall|k: int, l: int| 0 <= k < l < ch.len() implies #[trigger] ch[k] > #[trigger] ch[l] by {
                assert(ch[l] == rest[l - 1]);
                if k > 0 {
                    assert(ch[k] == rest[k - 1]);
                } else {
                    assert(rest[l - 1] <= next);
                }
            }
        }
    }
    assert forall|k: int, l: int| 0 <= k < ch.len() && 0 <= l < ch.len() && k != l implies ch[k] != ch[l] by {
        if k < l {
            assert(ch[k] > ch[l]);
        } else {
            assert(ch[l] > ch[k]);
        }
    }
}

impl<'a> Tree<'a> {
    /// The links laid while visiting: every node's newest child is a later
    /// node whose parent it is, and every node's previous sibling is an
    /// earlier node with the same parent.
    pub closed spec fn building(self) -> bool {
        let n = self.nodes@.len();
        let p = self.parents@;
        &&& p.len() == n
        &&& n < NO_INDEX
        &&& forall|i: int| 0 <= i < n ==> -1 <= #[trigger] p[i] < i
        &&& forall|i: int|
            0 <= i < n ==> (#[trigger] self.nodes@[i]).child_start == NO_INDEX || (i < self.nodes@[i].child_start < n
                && p[self.nodes@[i].child_start as int] == i)
        &&& forall|i: int|
            0 <= i < n ==> (#[trigger] self.nodes@[i]).child_count == NO_INDEX || (self.nodes@[i].child_count < i
                && p[self.nodes@[i].child_count as int] == p[i])
        &&& forall|j: int| 0 <= j < self.stack@.len() ==> #[trigger] self.stack@[j] < n
        &&& forall|i: int| 0 <= i < n ==> #[trigger] links_children(self.nodes@, p, i)
        &&& tails_bounded(self.else_tails@)
        &&& forall|i: int| 0 <= i < n ==> offset_ok((#[trigger] self.nodes@[i]).role.heredoc_end.view())
        &&& self.children@.len() == 0
        &&& self.child_max_ends@.len() == 0
    }

    pub closed spec fn nodes_view(self) -> Seq<TreeNode> {
        self.nodes@
    }

    /// Each node's parent: the innermost open node when it was entered, or
    /// -1 at the top.
    pub closed spec fn parents_view(self) -> Seq<int> {
        self.parents@
    }

    pub closed spec fn stack_view(self) -> Seq<usize> {
        self.stack@
    }

    pub closed spec fn source_view(self) -> Seq<u8> {
        self.source@
    }

    pub closed spec fn tails_view(self) -> Seq<(Key, usize)> {
        self.else_tails@
    }

    pub closed spec fn openings_view(self) -> Seq<usize> {
        self.heredoc_openings@
    }

    /// An empty tree over `source`.
    pub fn new(source: &'a [u8]) -> (tree: Self)
        ensures
            tree.building(),
            tree.nodes_view().len() == 0,
            tree.stack_view().len() == 0,
            tree.source_view() == source@,
            tree.tails_view().len() == 0,
            tree.openings_view().len() == 0,
            tree.parents_view().len() == 0,
    {
        Tree {
            source,
            nodes: Vec::new(),
            children: Vec::new(),
            child_max_ends: Vec::new(),
            else_tails: Vec::new(),
            stack: Vec::new(),
            heredoc_openings: Vec::new(),
            parents: Ghost(Seq::empty()),
        }
    }

    /// The number of nodes entered so far.
    pub fn node_count(&self) -> (count: usize)
        ensures
            count == self.nodes_view().len(),
    {
        self.nodes.len()
    }

    /// The number of nodes entered and not yet left.
    pub fn depth(&self) -> (depth: usize)
        ensures
            depth == self.stack_view().len(),
    {
        self.stack.len()
    }

    /// Enters a node: it becomes the newest child of the innermost open
    /// node, and the innermost open node itself.
    pub fn enter(&mut self, facts: &NodeFacts)
        requires
            old(self).building(),
            old(self).nodes_view().len() + 1 < NO_INDEX,
            facts_fit(old(self).source_view().len(), *facts),
        ensures
            final(self).building(),
            final(self).source_view() == old(self).source_view(),
            final(self).nodes_view().len() == old(self).nodes_view().len() + 1,
            final(self).nodes_view().last().key == facts.key,
            final(self).nodes_view().last().role == role_of(old(self).source_view(), old(self).tails_view(), *facts),
            final(self).stack_view() == old(self).stack_view().push(old(self).nodes_view().len() as usize),
            final(self).parents_view() == old(self).parents_view().push(
                if old(self).stack_view().len() == 0 {
                    -1
                } else {
                    old(self).stack_view().last() as int
                },
            ),
            final(self).tails_view() == (match facts.else_before_ensure {
                Some(t) => if facts.kind == NodeKind::Begin {
                    old(self).tails_view().push(t)
                } else {
                    old(self).tails_view()
                },
                None => old(self).tails_view(),
            }),
            final(self).openings_view() == (match heredoc_of(old(self).source_view(), *facts) {
                Some((opening, _)) => old(self).openings_view().push(opening),
                None => old(self).openings_view(),
            }),
            forall|i: int|
                0 <= i < old(self).nodes_view().len() ==> (#[trigger] final(self).nodes_view()[i]).key == old(self).nodes_view()[i].key && final(self).nodes_view()[i].role == old(self).nodes_view()[i].role,
    {
        let heredoc: Option<(usize, usize)> = heredoc_range(self.source, facts);
        if let Some((opening, _)) = heredoc {
            self.heredoc_openings.push(opening);
        }
        let role: Role = role_for(self.source, &self.else_tails, facts);
        if facts.kind == NodeKind::Begin {
            if let Some(tail) = facts.else_before_ensure {
                self.else_tails.push(tail);
            }
        }
        let index: usize = self.nodes.len();
        let ghost old_nodes = self.nodes@;
        let ghost p = self.parents@;
        let next_sibling: usize = if self.stack.len() > 0 {
            let parent: usize = self.stack[self.stack.len() - 1];
            let mut node: TreeNode = self.nodes[parent];
            let next_sibling: usize = node.child_start;
            node.child_start = index;
            self.nodes.set(parent, node);
            self.parents = Ghost(p.push(parent as int));
            next_sibling
        } else {
            self.parents = Ghost(p.push(-1));
            NO_INDEX
        };
        self.nodes.push(TreeNode { key: facts.key, role, child_start: NO_INDEX, child_count: next_sibling });
        self.stack.push(index);
        proof {
            let n = self.nodes@;
            let q = self.parents@;
            assert forall|i: int| 0 <= i < n.len() implies -1 <= #[trigger] q[i] < i by {
                if i < index {
                    assert(q[i] == p[i]);
                }
            }
            assert forall|i: int|
                0 <= i < n.len() implies (#[trigger] n[i]).child_start == NO_INDEX || (i < n[i].child_start < n.len()
                    && q[n[i].child_start as int] == i) by {
                if i < index {
                    assert(q[i] == p[i]);
                    if n[i].child_start != NO_INDEX && n[i].child_start != index {
                        assert(n[i].child_start == old_nodes[i].child_start);
                    }
                }
            }
            assert forall|i: int|
                0 <= i < n.len() implies (#[trigger] n[i]).child_count == NO_INDEX || (n[i].child_count < i
                    && q[n[i].child_count as int] == q[i]) by {
                if i < index {
                    assert(n[i].child_count == old_nodes[i].child_count);
                    assert(q[i] == p[i]);
                } else if next_sibling != NO_INDEX {
                    assert(old_nodes[q[i]].child_start == next_sibling);
                }
            }
            assert forall|j: int| 0 <= j < self.stack@.len() implies #[trigger] self.stack@[j] < n.len() by {
                if j < self.stack@.len() - 1 {
                    assert(self.stack@[j] == old(self).stack@[j]);
                }
            }
            assert forall|j: int| 0 <= j < old_nodes.len() implies (#[trigger] old_nodes[j]).child_count
                == n[j].child_count by {}
            assert forall|j: int| 0 <= j < index && j != q[index as int] implies (#[trigger] n[j]).child_start
                == old_nodes[j].child_start by {}
            lemma_links_after_enter(old_nodes, n, p, q, index, next_sibling);
        }
    }
}


impl<'a> Tree<'a> {
    /// Leaves the innermost open node, extending its parent's reach over any
    /// heredoc body it holds.
    pub fn leave(&mut self)
        requires
            old(self).building(),
            old(self).stack_view().len() > 0,
        ensures
            final(self).building(),
            final(self).source_view() == old(self).source_view(),
            final(self).tails_view() == old(self).tails_view(),
            final(self).openings_view() == old(self).openings_view(),
            final(self).stack_view() == old(self).stack_view().drop_last(),
            final(self).parents_view() == old(self).parents_view(),
            final(self).nodes_view().len() == old(self).nodes_view().len(),
            forall|i: int|
                0 <= i < old(self).nodes_view().len() ==> (#[trigger] final(self).nodes_view()[i]).key == old(self).nodes_view()[i].key,
            forall|i: int|
                #![trigger final(self).nodes_view()[i]]
                0 <= i < old(self).nodes_view().len() ==> {
                    let left = old(self).nodes_view()[old(self).stack_view().last() as int];
                    let r = final(self).nodes_view()[i].role;
                    let o = old(self).nodes_view()[i].role;
                    if old(self).stack_view().len() >= 2 && i == old(self).stack_view()[old(self).stack_view().len()
                        - 2] && left.role.heredoc_end.view() is Some {
                        r == Role {
                            heredoc_end: Offset {
                                value: max_end(o.heredoc_end.view(), left.role.heredoc_end.view()),
                            },
                            ..o
                        }
                    } else {
                        r == o
                    }
                },
    {
        let ghost old_nodes = self.nodes@;
        let index: usize = self.stack.pop().unwrap();
        let end: Option<usize> = self.nodes[index].role.heredoc_end.get();
        if let Some(end) = end {
            if self.stack.len() > 0 {
                let parent: usize = self.stack[self.stack.len() - 1];
                let mut node: TreeNode = self.nodes[parent];
                node.role.heredoc_end = Offset::new(max_offset(node.role.heredoc_end.get(), Some(end)));
                self.nodes.set(parent, node);
            }
        }
        proof {
            let n = self.nodes@;
            assert(n.len() == old_nodes.len());
            assert forall|i: int| 0 <= i < n.len() implies (#[trigger] n[i]).child_start == old_nodes[i].child_start
                && n[i].child_count == old_nodes[i].child_count by {}
            assert forall|i: int| 0 <= i < n.len() implies #[trigger] links_children(n, self.parents@, i) by {
                assert(links_children(old_nodes, self.parents@, i));
                lemma_chain_frame(old_nodes, n, n[i].child_start);
            }
            assert forall|j: int| 0 <= j < self.stack@.len() implies #[trigger] self.stack@[j] < n.len() by {
                assert(self.stack@[j] == old(self).stack@[j]);
            }
        }
    }

    /// Enters a node unless it is already the innermost open node; returns
    /// whether it entered.
    pub fn enter_typed(&mut self, facts: &NodeFacts) -> (entered: bool)
        requires
            old(self).building(),
            old(self).nodes_view().len() + 1 < NO_INDEX,
            facts_fit(old(self).source_view().len(), *facts),
        ensures
            entered == (old(self).stack_view().len() == 0 || old(self).nodes_view()[old(self).stack_view().last() as int].key != facts.key),
            final(self).building(),
            final(self).source_view() == old(self).source_view(),
            !entered ==> final(self).nodes_view() == old(self).nodes_view() && final(self).stack_view() == old(self).stack_view() && final(self).tails_view() == old(self).tails_view() && final(self).openings_view()
                == old(self).openings_view() && final(self).parents_view() == old(self).parents_view(),
            entered ==> final(self).parents_view() == old(self).parents_view().push(
                if old(self).stack_view().len() == 0 {
                    -1
                } else {
                    old(self).stack_view().last() as int
                },
            ),
            entered ==> final(self).nodes_view().len() == old(self).nodes_view().len() + 1 && final(self).nodes_view().last().key == facts.key && final(self).nodes_view().last().role == role_of(
                old(self).source_view(),
                old(self).tails_view(),
                *facts,
            ) && final(self).stack_view() == old(self).stack_view().push(old(self).nodes_view().len() as usize),
    {
        let entered: bool = if self.stack.len() == 0 {
            true
        } else {
            let top: usize = self.stack[self.stack.len() - 1];
            self.nodes[top].key != facts.key
        };
        if entered {
            self.enter(facts);
        }
        entered
    }
}


/// The entries of `children` that node `i` lists.
pub open spec fn kids(children: Seq<usize>, nodes: Seq<TreeNode>, i: int) -> Seq<usize> {
    children.subrange(nodes[i].child_start as int, nodes[i].child_start + nodes[i].child_count)
}

/// `a`'s range sorts no later than `b`'s: by start, then by end.
pub open spec fn range_le(a: Key, b: Key) -> bool {
    a.start < b.start || (a.start == b.start && a.end <= b.end)
}

/// Node indices in source order of their ranges.
pub open spec fn sorted_by_range(nodes: Seq<TreeNode>, v: Seq<usize>) -> bool {
    forall|i: int, j: int|
        0 <= i < j < v.len() ==> range_le(nodes[#[trigger] v[i] as int].key, nodes[#[trigger] v[j] as int].key)
}

/// Entries with the same range keep the order the nodes were entered in.
pub open spec fn ties_in_entry_order(nodes: Seq<TreeNode>, v: Seq<usize>) -> bool {
    forall|i: int, j: int|
        0 <= i < j < v.len() && range_le(nodes[v[j] as int].key, nodes[v[i] as int].key) ==> #[trigger] v[i]
            < #[trigger] v[j]
}

/// Inserts node `x` after every entry whose range sorts no later than its own.
#[verifier::spinoff_prover]
#[verifier::rlimit(40)]
fn insert_by_range(nodes: &Vec<TreeNode>, sorted: &mut Vec<usize>, x: usize, lo: usize)
    requires
        sorted_by_range(nodes@, old(sorted)@),
        ties_in_entry_order(nodes@, old(sorted)@),
        forall|k: int| 0 <= k < old(sorted)@.len() ==> #[trigger] old(sorted)@[k] < x,
        lo < x < nodes@.len(),
        forall|k: int| 0 <= k < old(sorted)@.len() ==> lo < #[trigger] old(sorted)@[k] < nodes@.len(),
    ensures
        sorted_by_range(nodes@, final(sorted)@),
        ties_in_entry_order(nodes@, final(sorted)@),
        final(sorted)@.len() == old(sorted)@.len() + 1,
        forall|k: int| 0 <= k < final(sorted)@.len() ==> lo < #[trigger] final(sorted)@[k] < nodes@.len(),
        forall|y: usize| #[trigger] final(sorted)@.contains(y) <==> (old(sorted)@.contains(y) || y == x),
        old(sorted)@.no_duplicates() && !old(sorted)@.contains(x) ==> final(sorted)@.no_duplicates(),
{
    let key: Key = nodes[x].key;
    let mut i: usize = 0;
    while i < sorted.len() && range_le_exec(&nodes[sorted[i]].key, &key)
        invariant
            i <= sorted@.len(),
            forall|k: int| 0 <= k < sorted@.len() ==> lo < #[trigger] sorted@[k] < nodes@.len(),
            forall|j: int| 0 <= j < i ==> range_le(nodes@[#[trigger] sorted@[j] as int].key, key),
        decreases sorted.len() - i,
    {
        i = i + 1;
    }
    let ghost before = sorted@;
    sorted.insert(i, x);
    proof {
        let after = sorted@;
        assert(after =~= before.insert(i as int, x));
        assert forall|a: int, b: int|
            0 <= a < b < after.len() implies range_le(
            nodes@[#[trigger] after[a] as int].key,
            nodes@[#[trigger] after[b] as int].key,
        ) by {
            if b < i {
                assert(after[a] == before[a] && after[b] == before[b]);
            } else if b == i {
                assert(after[a] == before[a]);
            } else if a == i {
                assert(after[b] == before[b - 1]);
                if i < before.len() {
                    assert(!range_le(nodes@[before[i as int] as int].key, key));
                    if b - 1 > i {
                        assert(range_le(nodes@[before[i as int] as int].key, nodes@[before[b - 1] as int].key));
                    }
                }
            } else if a < i {
                assert(after[a] == before[a] && after[b] == before[b - 1]);
            } else {
                assert(after[a] == before[a - 1] && after[b] == before[b - 1]);
            }
        }
        assert forall|k: int| 0 <= k < after.len() implies lo < #[trigger] after[k] < nodes@.len() by {
            if k < i {
                assert(after[k] == before[k]);
            } else if k > i {
                assert(after[k] == before[k - 1]);
            }
        }
        assert forall|y: usize| #[trigger] after.contains(y) <==> (before.contains(y) || y == x) by {
            if after.contains(y) {
                let k = choose|k: int| 0 <= k < after.len() && after[k] == y;
                if k < i {
                    assert(before[k] == y);
                } else if k > i {
                    assert(before[k - 1] == y);
                }
            }
            if before.contains(y) {
                let k = choose|k: int| 0 <= k < before.len() && before[k] == y;
                if k < i {
                    assert(after[k] == y);
                } else {
                    assert(after[k + 1] == y);
                }
            }
            if y == x {
                assert(after[i as int] == x);
            }
        }
        assert forall|a: int, b: int|
            0 <= a < b < after.len() && range_le(nodes@[after[b] as int].key, nodes@[after[a] as int].key) implies #[trigger] after[a]
                < #[trigger] after[b] by {
            if b < i {
                assert(after[a] == before[a] && after[b] == before[b]);
            } else if b == i {
                assert(after[a] == before[a]);
            } else if a == i {
                assert(after[b] == before[b - 1]);
                assert(!range_le(nodes@[before[i as int] as int].key, key));
                if b - 1 > i {
                    assert(range_le(nodes@[before[i as int] as int].key, nodes@[before[b - 1] as int].key));
                }
            } else if a < i {
                assert(after[a] == before[a] && after[b] == before[b - 1]);
            } else {
                assert(after[a] == before[a - 1] && after[b] == before[b - 1]);
            }
        }
        if before.no_duplicates() && !before.contains(x) {
            assert forall|a: int, b: int| 0 <= a < after.len() && 0 <= b < after.len() && a != b implies after[a]
                != after[b] by {
                if a != i && b != i {
                    let a0 = if a < i { a } else { a - 1 };
                    let b0 = if b < i { b } else { b - 1 };
                    assert(after[a] == before[a0]);
                    assert(after[b] == before[b0]);
                } else if a == i {
                    let b0 = if b < i { b } else { b - 1 };
                    assert(after[b] == before[b0]);
                } else {
                    let a0 = if a < i { a } else { a - 1 };
                    assert(after[a] == before[a0]);
                }
            }
        }
    }
}

fn range_le_exec(a: &Key, b: &Key) -> (le: bool)
    ensures
        le == range_le(*a, *b),
{
    a.start < b.start || (a.start == b.start && a.end <= b.end)
}

impl<'a> Tree<'a> {
    /// Children listed by parent, in source order.
    pub closed spec fn indexed(self) -> bool {
        let n = self.nodes@.len();
        let nodes = self.nodes@;
        let ch = self.children@;
        let me = self.child_max_ends@;
        &&& ch.len() == me.len()
        &&& forall|i: int|
            0 <= i < n ==> (#[trigger] nodes[i]).child_start + nodes[i].child_count <= ch.len()
        &&& forall|i: int, k: int|
            #![trigger nodes[i], ch[k]]
            0 <= i < n && nodes[i].child_start <= k < nodes[i].child_start + nodes[i].child_count ==> i
                < ch[k] < n && effective_end(nodes[ch[k] as int]) <= me[k] && (k
                > nodes[i].child_start ==> me[k - 1] <= me[k])
        &&& forall|i: int| 0 <= i < n ==> sorted_by_range(nodes, #[trigger] self.children_of(i))
        &&& forall|i: int| 0 <= i < n ==> ties_in_entry_order(nodes, #[trigger] self.children_of(i))
        &&& self.parents@.len() == n
        &&& forall|i: int| 0 <= i < n ==> #[trigger] lists_children(ch, nodes, self.parents@, i)
    }

    /// The children of node `i` once indexed.
    pub closed spec fn children_of(self, i: int) -> Seq<usize> {
        kids(self.children@, self.nodes@, i)
    }

    /// Lists every node's children, in source order, in one packed array.
    /// Visiting links each node to its previous sibling, newest first, so
    /// the links are walked back to visiting order before the stable sort.
    #[verifier::spinoff_prover]
    #[verifier::rlimit(40)]
    pub fn index_children(&mut self)
        requires
            old(self).building(),
        ensures
            final(self).indexed(),
            final(self).source_view() == old(self).source_view(),
            final(self).parents_view() == old(self).parents_view(),
            final(self).nodes_view().len() == old(self).nodes_view().len(),
            forall|i: int|
                0 <= i < old(self).nodes_view().len() ==> (#[trigger] final(self).nodes_view()[i]).key == old(
                    self).nodes_view()[i].key && final(self).nodes_view()[i].role == old(self).nodes_view()[i].role,
    {
        let n: usize = self.nodes.len();
        let ghost p = self.parents@;
        let ghost visited = self.nodes@;
        let mut siblings: Vec<usize> = Vec::new();
        let mut parent: usize = 0;
        while parent < n
            invariant
                n == self.nodes@.len(),
                n == visited.len(),
                n < NO_INDEX,
                p.len() == n,
                self.source@ == old(self).source@,
                forall|i: int| 0 <= i < n ==> -1 <= #[trigger] p[i] < i,
                forall|i: int|
                    0 <= i < n ==> (#[trigger] self.nodes@[i]).key == visited[i].key && self.nodes@[i].role
                        == visited[i].role,
                parent <= n,
                forall|i: int|
                    parent <= i < n ==> (#[trigger] self.nodes@[i]).child_start == NO_INDEX || (i
                        < self.nodes@[i].child_start < n && p[self.nodes@[i].child_start as int] == i),
                forall|i: int|
                    parent <= i < n ==> (#[trigger] self.nodes@[i]).child_count == NO_INDEX || (
                    self.nodes@[i].child_count < i && p[self.nodes@[i].child_count as int] == p[i]),
                self.children@.len() == self.child_max_ends@.len(),
                forall|i: int|
                    0 <= i < parent ==> (#[trigger] self.nodes@[i]).child_start + self.nodes@[i].child_count
                        <= self.children@.len(),
                forall|i: int, k: int|
                    #![trigger self.nodes@[i], self.children@[k]]
                    0 <= i < parent && self.nodes@[i].child_start <= k < self.nodes@[i].child_start
                        + self.nodes@[i].child_count ==> i < self.children@[k] < n && effective_end(
                        visited[self.children@[k] as int],
                    ) <= self.child_max_ends@[k] && (k > self.nodes@[i].child_start
                        ==> self.child_max_ends@[k - 1] <= self.child_max_ends@[k]),
                forall|i: int|
                    0 <= i < parent ==> sorted_by_range(visited, #[trigger] kids(self.children@, self.nodes@, i)),
                self.parents@ == p,
                forall|i: int| parent <= i < n ==> #[trigger] self.nodes@[i] == visited[i],
                forall|i: int| 0 <= i < n ==> #[trigger] links_children(visited, p, i),
                forall|x: int|
                    0 <= x < n ==> (#[trigger] visited[x]).child_count == NO_INDEX || (visited[x].child_count < x
                        && p[visited[x].child_count as int] == p[x]),
                forall|i: int| 0 <= i < parent ==> #[trigger] lists_children(self.children@, self.nodes@, p, i),
                forall|i: int|
                    0 <= i < parent ==> ties_in_entry_order(visited, #[trigger] kids(self.children@, self.nodes@, i)),
            decreases n - parent,
        {
            siblings.clear();
            let mut child: usize = self.nodes[parent].child_start;
            proof {
                assert(siblings@ + chain(visited, child) =~= chain(visited, visited[parent as int].child_start));
            }
            while child != NO_INDEX
                invariant
                    n == visited.len(),
                    forall|i: int| parent <= i < n ==> #[trigger] self.nodes@[i] == visited[i],
                    siblings@ + chain(visited, child) == chain(visited, visited[parent as int].child_start),
                    n == self.nodes@.len(),
                    p.len() == n,
                    parent < n,
                    child == NO_INDEX || (parent < child < n && p[child as int] == parent),
                    self.source@ == old(self).source@,
                    forall|k: int| 0 <= k < siblings@.len() ==> parent < #[trigger] siblings@[k] < n,
                    forall|i: int| 0 <= i < n ==> -1 <= #[trigger] p[i] < i,
                    forall|i: int|
                        parent <= i < n ==> (#[trigger] self.nodes@[i]).child_count == NO_INDEX || (
                        self.nodes@[i].child_count < i && p[self.nodes@[i].child_count as int] == p[i]),
                decreases (if child == NO_INDEX {
                    0
                } else {
                    child + 1
                }),
            {
                let ghost before = siblings@;
                let ghost current = child;
                siblings.push(child);
                child = self.nodes[child].child_count;
                proof {
                    assert(self.nodes@[current as int] == visited[current as int]);
                    if child < current {
                        assert(chain(visited, current) == seq![current] + chain(visited, child));
                    } else {
                        assert(chain(visited, current) == seq![current]);
                        assert(chain(visited, child) =~= Seq::<usize>::empty());
                    }
                    assert(siblings@ + chain(visited, child) =~= before + chain(visited, current));
                }
            }
            proof {
                assert(chain(visited, child) =~= Seq::<usize>::empty());
                assert(siblings@ =~= chain(visited, visited[parent as int].child_start));
                lemma_chain_siblings(visited, p, parent as int, visited[parent as int].child_start);
                assert(siblings@.subrange(siblings@.len() as int, siblings@.len() as int) =~= Seq::<usize>::empty());
            }
            let mut sorted: Vec<usize> = Vec::new();
            let mut k: usize = siblings.len();
            while k > 0
                invariant
                    k <= siblings@.len(),
                    n == self.nodes@.len(),
                    n == visited.len(),
                    self.source@ == old(self).source@,
                    forall|i: int| 0 <= i < n ==> (#[trigger] self.nodes@[i]).key == visited[i].key,
                    forall|j: int| 0 <= j < siblings@.len() ==> parent < #[trigger] siblings@[j] < n,
                    forall|j: int| 0 <= j < sorted@.len() ==> parent < #[trigger] sorted@[j] < n,
                    sorted_by_range(visited, sorted@),
                    ties_in_entry_order(visited, sorted@),
                    forall|a: int, b: int| 0 <= a < b < siblings@.len() ==> #[trigger] siblings@[a] > #[trigger] siblings@[b],
                    siblings@.no_duplicates(),
                    sorted@.no_duplicates(),
                    forall|y: usize|
                        #[trigger] sorted@.contains(y) <==> siblings@.subrange(k as int, siblings@.len() as int).contains(y),
                decreases k,
            {
                k = k - 1;
                let ghost before = sorted@;
                let ghost x = siblings@[k as int];
                proof {
                    let rest = siblings@.subrange(k + 1, siblings@.len() as int);
                    if before.contains(x) {
                        assert(rest.contains(x));
                        let j = choose|j: int| 0 <= j < rest.len() && rest[j] == x;
                        assert(siblings@[k + 1 + j] == x);
                    }
                    assert forall|j: int| 0 <= j < before.len() implies #[trigger] before[j] < x by {
                        assert(before.contains(before[j]));
                        assert(rest.contains(before[j]));
                        let m = choose|m: int| 0 <= m < rest.len() && rest[m] == before[j];
                        assert(siblings@[k + 1 + m] == before[j]);
                    }
                }
                proof {
                    lemma_sorted_same_keys(visited, self.nodes@, sorted@);
                }
                insert_by_range(&self.nodes, &mut sorted, siblings[k], parent);
                proof {
                    lemma_sorted_same_keys(self.nodes@, visited, sorted@);
                    let now = siblings@.subrange(k as int, siblings@.len() as int);
                    let rest = siblings@.subrange(k + 1, siblings@.len() as int);
                    assert(now =~= seq![x] + rest);
                    assert forall|y: usize| #[trigger] sorted@.contains(y) <==> now.contains(y) by {
                        if now.contains(y) && y != x {
                            let j = choose|j: int| 0 <= j < now.len() && now[j] == y;
                            assert(rest[j - 1] == y);
                        }
                        if rest.contains(y) {
                            let j = choose|j: int| 0 <= j < rest.len() && rest[j] == y;
                            assert(now[j + 1] == y);
                        }
                        if y == x {
                            assert(now[0] == x);
                        }
                    }
                }
            }
            let ghost prev_children = self.children@;
            let ghost prev_ends = self.child_max_ends@;
            let ghost nodes_before = self.nodes@;
            let start: usize = self.children.len();
            let mut node: TreeNode = self.nodes[parent];
            node.child_start = start;
            node.child_count = sorted.len();
            self.nodes.set(parent, node);
            let ghost nodes_now = self.nodes@;
            let mut max_end: usize = 0;
            let mut j: usize = 0;
            while j < sorted.len()
                invariant
                    n == self.nodes@.len(),
                    n == visited.len(),
                    parent < n,
                    j <= sorted@.len(),
                    start == prev_children.len(),
                    prev_children.len() == prev_ends.len(),
                    self.nodes@ == nodes_now,
                    self.source@ == old(self).source@,
                    self.parents@ == p,
                    nodes_now[parent as int].child_start == start,
                    nodes_now[parent as int].child_count == sorted@.len(),
                    self.children@.len() == start + j,
                    self.children@.len() == self.child_max_ends@.len(),
                    self.children@.subrange(0, start as int) == prev_children,
                    self.child_max_ends@.subrange(0, start as int) == prev_ends,
                    forall|q: int| 0 <= q < j ==> #[trigger] self.children@[start + q] == sorted@[q],
                    forall|q: int| 0 <= q < sorted@.len() ==> parent < #[trigger] sorted@[q] < n,
                    forall|i: int|
                        0 <= i < n ==> (#[trigger] self.nodes@[i]).key == visited[i].key && self.nodes@[i].role
                            == visited[i].role,
                    j > 0 ==> max_end == self.child_max_ends@[start + j - 1],
                    forall|q: int|
                        start <= q < start + j ==> effective_end(visited[#[trigger] self.children@[q] as int])
                            <= self.child_max_ends@[q] && (q > start ==> self.child_max_ends@[q - 1]
                            <= self.child_max_ends@[q]),
                decreases sorted.len() - j,
            {
                let c: usize = sorted[j];
                let end: usize = self.nodes[c].key.end;
                let reach: usize = match self.nodes[c].role.heredoc_end.get() {
                    Some(e) => if e > end {
                        e
                    } else {
                        end
                    },
                    None => end,
                };
                if reach > max_end {
                    max_end = reach;
                }
                let ghost before_children = self.children@;
                let ghost before_ends = self.child_max_ends@;
                self.children.push(c);
                self.child_max_ends.push(max_end);
                proof {
                    assert(self.children@.subrange(0, start as int) =~= before_children.subrange(0, start as int));
                    assert(self.child_max_ends@.subrange(0, start as int) =~= before_ends.subrange(0, start as int));
                }
                j = j + 1;
            }
            proof {
                let ch = self.children@;
                let me = self.child_max_ends@;
                assert forall|q: int| 0 <= q < start implies ch[q] == prev_children[q] && me[q] == prev_ends[q] by {
                    assert(ch.subrange(0, start as int)[q] == ch[q]);
                    assert(me.subrange(0, start as int)[q] == me[q]);
                }
                assert forall|q: int| 0 <= q < sorted@.len() implies kids(ch, nodes_now, parent as int)[q]
                    == sorted@[q] by {
                    assert(ch[start + q] == sorted@[q]);
                }
                assert(kids(ch, nodes_now, parent as int) =~= sorted@);
                assert forall|i: int| 0 <= i < n && i != parent implies #[trigger] nodes_now[i] == nodes_before[i] by {}
                assert forall|i: int, k: int|
                    #![trigger nodes_now[i], ch[k]]
                    0 <= i < parent + 1 && nodes_now[i].child_start <= k < nodes_now[i].child_start
                        + nodes_now[i].child_count implies i < ch[k] < n && effective_end(visited[ch[k] as int])
                        <= me[k] && (k > nodes_now[i].child_start ==> me[k - 1] <= me[k]) by {
                    if i < parent {
                        assert(nodes_now[i] == nodes_before[i]);
                        assert(prev_children[k] == ch[k]);
                        assert(prev_ends[k] == me[k]);
                        if k > nodes_now[i].child_start {
                            assert(prev_ends[k - 1] == me[k - 1]);
                        }
                        assert(i < prev_children[k] < n);
                    } else {
                        assert(ch[start + (k - start)] == sorted@[k - start]);
                    }
                }
                assert forall|i: int| 0 <= i < parent implies sorted_by_range(visited, #[trigger] kids(ch, nodes_now, i)) by {
                    assert(nodes_now[i] == nodes_before[i]);
                    assert(sorted_by_range(visited, kids(prev_children, nodes_before, i)));
                    assert(kids(ch, nodes_now, i) =~= kids(prev_children, nodes_before, i));
                }
                assert forall|i: int| 0 <= i < parent implies ties_in_entry_order(visited, #[trigger] kids(ch, nodes_now, i)) by {
                    assert(nodes_now[i] == nodes_before[i]);
                    assert(ties_in_entry_order(visited, kids(prev_children, nodes_before, i)));
                    assert(kids(ch, nodes_now, i) =~= kids(prev_children, nodes_before, i));
                }
                assert forall|i: int| 0 <= i < parent implies #[trigger] lists_children(ch, nodes_now, p, i) by {
                    assert(nodes_now[i] == nodes_before[i]);
                    assert(lists_children(prev_children, nodes_before, p, i));
                    assert(kids(ch, nodes_now, i) =~= kids(prev_children, nodes_before, i));
                }
                assert(siblings@.subrange(0, siblings@.len() as int) =~= siblings@);
                assert(links_children(visited, p, parent as int));
                assert forall|c: usize| c < nodes_now.len() implies (p[c as int] == parent <==> #[trigger] kids(
                    ch,
                    nodes_now,
                    parent as int,
                ).contains(c)) by {
                    assert(sorted@.contains(c) <==> siblings@.contains(c));
                }
                assert(lists_children(ch, nodes_now, p, parent as int));
                assert forall|i: int| parent + 1 <= i < n implies #[trigger] nodes_now[i] == visited[i] by {
                    assert(nodes_before[i] == visited[i]);
                }
            }
            parent = parent + 1;
        }
        proof {
            assert forall|i: int| 0 <= i < n implies sorted_by_range(self.nodes@, #[trigger] self.children_of(i)) by {
                lemma_sorted_same_keys(visited, self.nodes@, self.children_of(i));
            }
        }
    }
}

/// Once indexed, the children listed for node `i` are exactly the nodes
/// entered while `i` was the innermost open node, each once, in source
/// order, with children of the same range in the order they were entered.
pub proof fn law_children_are_the_nodes_entered_inside(tree: &Tree, i: int, c: usize)
    requires
        tree.indexed(),
        0 <= i < tree.nodes_view().len(),
        c < tree.nodes_view().len(),
    ensures
        tree.parents_view()[c as int] == i <==> tree.children_of(i).contains(c),
        tree.children_of(i).no_duplicates(),
        sorted_by_range(tree.nodes_view(), tree.children_of(i)),
        ties_in_entry_order(tree.nodes_view(), tree.children_of(i)),
{
    assert(lists_children(tree.children_view(), tree.nodes_view(), tree.parents_view(), i));
}

/// Sorting by range reads only the nodes' keys.
proof fn lemma_sorted_same_keys(a: Seq<TreeNode>, b: Seq<TreeNode>, v: Seq<usize>)
    requires
        a.len() == b.len(),
        forall|i: int| 0 <= i < a.len() ==> (#[trigger] a[i]).key == b[i].key,
        forall|k: int| 0 <= k < v.len() ==> #[trigger] v[k] < a.len(),
        sorted_by_range(a, v),
    ensures
        sorted_by_range(b, v),
        ties_in_entry_order(a, v) ==> ties_in_entry_order(b, v),
{
    assert forall|i: int, j: int| 0 <= i < j < v.len() implies #[trigger] a[v[i] as int].key == b[v[i] as int].key
        && #[trigger] a[v[j] as int].key == b[v[j] as int].key by {}
    assert forall|i: int, j: int| 0 <= i < j < v.len() implies range_le(
        b[#[trigger] v[i] as int].key,
        b[#[trigger] v[j] as int].key,
    ) by {
        assert(a[v[i] as int].key == b[v[i] as int].key);
        assert(a[v[j] as int].key == b[v[j] as int].key);
    }
}


// ---------------------------------------------------------------------------
// Maps from node keys, kept in `rustc_hash` maps.

#[verifier::external_type_specification]
#[verifier::external_body]
pub struct ExFxBuildHasher(FxBuildHasher);

/// A node key as a map key.
pub type NodeId = (usize, usize, u32);

/// A map from node keys.
pub type NodeMap<V> = FxHashMap<NodeId, V>;

/// `FxHashMap::default`: an empty map.
#[verifier::external_body]
fn fx_new<V>() -> (created: NodeMap<V>)
    ensures
        created@ =~= Map::empty(),
{
    FxHashMap::default()
}

/// `HashMap::remove`: takes the value stored under `key` out of the map.
#[verifier::external_body]
fn fx_remove<V>(map: &mut NodeMap<V>, key: NodeId) -> (value: Option<V>)
    ensures
        final(map)@ == old(map)@.remove(key),
        value == (if old(map)@.contains_key(key) {
            Some(old(map)@[key])
        } else {
            None
        }),
{
    map.remove(&key)
}

/// `HashMap::insert`: stores `value` under `key`, replacing what was there.
#[verifier::external_body]
fn fx_insert<V>(map: &mut NodeMap<V>, key: NodeId, value: V)
    ensures
        final(map)@ == old(map)@.insert(key, value),
{
    map.insert(key, value);
}

/// `HashMap::get`: the value stored under `key`, if any.
#[verifier::external_body]
fn fx_get<'m, V>(map: &'m NodeMap<V>, key: NodeId) -> (value: Option<&'m V>)
    ensures
        value == (if map@.contains_key(key) {
            Some(&map@[key])
        } else {
            None
        }),
{
    map.get(&key)
}


// ---------------------------------------------------------------------------
// Where comments go.

/// Leading, header and trailing comments of one node.
pub type Parts = (Seq<Comment>, Seq<Comment>, Seq<Comment>);

/// The parts with `comment` added at the end of `slot`.
pub open spec fn push_part(p: Parts, slot: Slot, comment: Comment) -> Parts {
    match slot {
        Slot::Leading => (p.0.push(comment), p.1, p.2),
        Slot::Header => (p.0, p.1.push(comment), p.2),
        Slot::Trailing => (p.0, p.1, p.2.push(comment)),
    }
}

/// Where one comment goes.
#[derive(Clone, Copy, Debug, PartialEq, Eq, Structural)]
pub enum Target {
    /// Attached to a node, in a slot.
    Attach(Key, Slot),
    /// An entry of a statement list's body.
    Body(Key),
    /// Dangling on a node, printed by the node's own layout.
    Dangle(Key),
}

/// Every comment placed so far, by node.
pub struct Placed {
    pub attached: Map<NodeId, Parts>,
    pub body: Map<NodeId, Seq<Comment>>,
    pub dangling: Map<NodeId, Seq<Comment>>,
}

pub open spec fn parts_at(m: Map<NodeId, Parts>, k: NodeId) -> Parts {
    if m.contains_key(k) {
        m[k]
    } else {
        (Seq::empty(), Seq::empty(), Seq::empty())
    }
}

pub open spec fn list_at(m: Map<NodeId, Seq<Comment>>, k: NodeId) -> Seq<Comment> {
    if m.contains_key(k) {
        m[k]
    } else {
        Seq::empty()
    }
}

/// `placed` with `comment` added at `target`, after what is already there.
pub open spec fn record(placed: Placed, target: Target, comment: Comment) -> Placed {
    match target {
        Target::Attach(k, slot) => Placed {
            attached: placed.attached.insert(k.id(), push_part(parts_at(placed.attached, k.id()), slot, comment)),
            ..placed
        },
        Target::Body(k) => Placed { body: placed.body.insert(k.id(), list_at(placed.body, k.id()).push(comment)), ..placed },
        Target::Dangle(k) => Placed {
            dangling: placed.dangling.insert(k.id(), list_at(placed.dangling, k.id()).push(comment)),
            ..placed
        },
    }
}

/// Whether one of `entries` spans the comment.
pub open spec fn entry_spans(nodes: Seq<TreeNode>, entries: Seq<usize>, c: Comment) -> bool {
    exists|k: int|
        0 <= k < entries.len() && nodes[#[trigger] entries[k] as int].key.start <= c.start && c.end
            <= nodes[entries[k] as int].key.end
}

/// The position among `ch` after skipping, from `cursor`, the children that
/// start at or before `at`.
pub open spec fn advance(nodes: Seq<TreeNode>, ch: Seq<usize>, cursor: int, at: usize) -> int
    decreases ch.len() - cursor,
{
    if 0 <= cursor < ch.len() && nodes[ch[cursor] as int].key.start <= at {
        advance(nodes, ch, cursor + 1, at)
    } else {
        cursor
    }
}

/// Scanning back from `rel`, the child of `node` that the comment lies in:
/// one reaching past its end, not a list the comment only follows the
/// operator of, and not a keyword-less `begin` whose own content starts
/// after the comment (unless the comment is on its own line with no
/// sibling after it).
pub open spec fn containing(
    nodes: Seq<TreeNode>,
    children: Seq<usize>,
    ch: Seq<usize>,
    at: int,
    rel: int,
    c: Comment,
    after_operator: bool,
) -> Option<usize>
    decreases rel,
{
    if rel <= 0 || rel > ch.len() {
        None
    } else {
        let child = ch[rel - 1];
        let role = nodes[child as int].role;
        if c.end > effective_end(nodes[child as int]) {
            containing(nodes, children, ch, at, rel - 1, c, after_operator)
        } else if after_operator && role.list && !entry_spans(nodes, kids(children, nodes, child as int), c) {
            containing(nodes, children, ch, at, rel - 1, c, after_operator)
        } else if role.content_start.value is Some && c.start < role.content_start.value->0 && (!c.own_line || at
            < ch.len()) {
            containing(nodes, children, ch, at, rel - 1, c, after_operator)
        } else {
            Some(child)
        }
    }
}

/// The nearest of `ch[..k]`, scanning back, that ends at or before `start`.
pub open spec fn preceding(nodes: Seq<TreeNode>, ch: Seq<usize>, k: int, start: usize) -> Option<usize>
    decreases k,
{
    if k <= 0 || k > ch.len() {
        None
    } else if nodes[ch[k - 1] as int].key.end <= start {
        Some(ch[k - 1])
    } else {
        preceding(nodes, ch, k - 1, start)
    }
}

/// The first of `ch[k..]` that starts at or after `end`.
pub open spec fn following(nodes: Seq<TreeNode>, ch: Seq<usize>, k: int, end: usize) -> Option<usize>
    decreases ch.len() - k,
{
    if k < 0 || k >= ch.len() {
        None
    } else if nodes[ch[k] as int].key.start >= end {
        Some(ch[k])
    } else {
        following(nodes, ch, k + 1, end)
    }
}

/// A list is never printed as a node: a comment aimed at one goes to the
/// entry it sits beside, its first for a leading comment and its last for a
/// trailing one. Parameters print their own `)`, so a comment after it
/// stays theirs.
pub open spec fn descend(nodes: Seq<TreeNode>, children: Seq<usize>, target: int, slot: Slot, inside_parens: bool) -> int
    decreases nodes.len() - target,
{
    if 0 <= target < nodes.len() && nodes[target].role.list && match slot {
        Slot::Leading => true,
        Slot::Trailing => !nodes[target].role.parameters || inside_parens,
        Slot::Header => false,
    } {
        let ch = kids(children, nodes, target);
        if ch.len() == 0 {
            target
        } else {
            let next = if slot == Slot::Leading {
                ch[0]
            } else {
                ch.last()
            };
            if target < next < nodes.len() {
                descend(nodes, children, next as int, slot, inside_parens)
            } else {
                target
            }
        }
    } else {
        target
    }
}

/// What the comment's neighbours among the children of `node` decide, once
/// no child holds it.
pub open spec fn decide(nodes: Seq<TreeNode>, children: Seq<usize>, node: int, at: int, c: Comment, after_operator: bool) -> Target {
    let role = nodes[node].role;
    let key = nodes[node].key;
    let ch = kids(children, nodes, node);
    let prev = preceding(nodes, ch, at, c.start);
    let next0 = following(nodes, ch, at, c.end);
    let inside_parens = role.rparen.value is Some && c.start < role.rparen.value->0;
    let next = match next0 {
        Some(f) => if !inside_parens || (role.rparen.value is Some && nodes[f as int].key.start < role.rparen.value->0) {
            Some(f)
        } else {
            None
        },
        None => None,
    };
    if c.own_line && role.statements {
        Target::Body(key)
    } else if c.own_line && next is Some && nodes[next->0 as int].role.statements {
        Target::Body(nodes[next->0 as int].key)
    } else if c.own_line && prev is Some && nodes[prev->0 as int].role.statements {
        Target::Body(nodes[prev->0 as int].key)
    } else if c.own_line && prev is Some && nodes[prev->0 as int].role.clause && !nodes[prev->0 as int].role.else_clause
        && kids(children, nodes, prev->0 as int).len() > 0 && nodes[kids(
        children,
        nodes,
        prev->0 as int,
    ).last() as int].role.statements {
        Target::Body(nodes[kids(children, nodes, prev->0 as int).last() as int].key)
    } else if c.own_line && role.chained_message.value is Some && c.start < role.chained_message.value->0 {
        Target::Dangle(key)
    } else {
        let choice: Option<(int, Slot)> = if c.own_line {
            if prev is Some && next is None && inside_parens && nodes[prev->0 as int].role.parameters {
                Some((prev->0 as int, Slot::Trailing))
            } else if next is Some && !nodes[next->0 as int].role.clause {
                Some((next->0 as int, Slot::Leading))
            } else if prev is Some && next is None && !role.bodied {
                Some((prev->0 as int, Slot::Trailing))
            } else {
                None
            }
        } else {
            if prev is Some && after_operator {
                Some((node, Slot::Header))
            } else if prev is Some {
                Some((prev->0 as int, Slot::Trailing))
            } else if next is Some && nodes[next->0 as int].role.parameters {
                Some((next->0 as int, Slot::Header))
            } else if next is Some && (role.call || (role.opens_statements && nodes[next->0 as int].role.statements)) {
                Some((next->0 as int, Slot::Leading))
            } else {
                Some((node, Slot::Header))
            }
        };
        match choice {
            Some((t, slot)) => Target::Attach(nodes[descend(nodes, children, t, slot, inside_parens)].key, slot),
            None => Target::Dangle(key),
        }
    }
}

/// A comment at the end of a line, once no child of `node` holds it and it
/// does not follow an assignment's operator, trails the child before it
/// (or, for a list, its last entry), whatever node encloses it: it stays on
/// that child's line.
pub proof fn law_end_of_line_comment_trails_what_precedes_it(
    nodes: Seq<TreeNode>,
    children: Seq<usize>,
    node: int,
    at: int,
    c: Comment,
    after_operator: bool,
)
    requires
        !c.own_line,
        !after_operator,
        preceding(nodes, kids(children, nodes, node), at, c.start) is Some,
    ensures
        decide(nodes, children, node, at, c, after_operator) matches Target::Attach(_, Slot::Trailing),
        exists|inside_parens: bool|
            decide(nodes, children, node, at, c, after_operator) == Target::Attach(
                nodes[descend(
                    nodes,
                    children,
                    preceding(nodes, kids(children, nodes, node), at, c.start)->0 as int,
                    Slot::Trailing,
                    inside_parens,
                )].key,
                Slot::Trailing,
            ),
{
    let role = nodes[node].role;
    let inside_parens = role.rparen.value is Some && c.start < role.rparen.value->0;
    let prev = preceding(nodes, kids(children, nodes, node), at, c.start);
    assert(decide(nodes, children, node, at, c, after_operator) == Target::Attach(
        nodes[descend(nodes, children, prev->0 as int, Slot::Trailing, inside_parens)].key,
        Slot::Trailing,
    ));
}

/// A comment on a line of its own, once no child of a statement list holds
/// it, joins that list's body among its statements.
pub proof fn law_own_line_comment_joins_the_statements(
    nodes: Seq<TreeNode>,
    children: Seq<usize>,
    node: int,
    at: int,
    c: Comment,
    after_operator: bool,
)
    requires
        c.own_line,
        nodes[node].role.statements,
    ensures
        decide(nodes, children, node, at, c, after_operator) == Target::Body(nodes[node].key),
{
}

/// Where a comment goes, starting at `node`, and the child cursors after:
/// into the child that holds it, else where its neighbours decide.
pub open spec fn placement(nodes: Seq<TreeNode>, children: Seq<usize>, cursors: Seq<usize>, node: int, c: Comment) -> (
    Seq<usize>,
    Target,
)
    decreases nodes.len() - node,
{
    if !(0 <= node < nodes.len() && node < cursors.len()) {
        (cursors, Target::Dangle(nodes[node].key))
    } else {
        let ch = kids(children, nodes, node);
        let at = advance(nodes, ch, cursors[node] as int, c.start);
        let moved = cursors.update(node, at as usize);
        let role = nodes[node].role;
        if c.own_line && role.else_tail.value is Some && role.else_tail.value->0 <= c.start {
            (moved, Target::Attach(nodes[node].key, Slot::Trailing))
        } else {
            let after_operator = role.operator_end.value is Some && role.operator_end.value->0 <= c.start;
            match containing(nodes, children, ch, at, at, c, after_operator) {
                Some(inner) => if node < inner < nodes.len() {
                    placement(nodes, children, moved, inner as int, c)
                } else {
                    (moved, Target::Dangle(nodes[node].key))
                },
                None => (moved, decide(nodes, children, node, at, c, after_operator)),
            }
        }
    }
}


/// Every comment, by the node it belongs to.
pub struct CommentMap {
    attached: NodeMap<Attached>,
    /// Own-line comments inside a `StatementsNode`, keyed by that node.
    body: NodeMap<Vec<Comment>>,
    /// Own-line comments in a node that no child claims, keyed by the node.
    dangling: NodeMap<Vec<Comment>>,
    /// Start offsets of every heredoc opener, in source order.
    heredoc_openings: Vec<usize>,
}

impl View for CommentMap {
    type V = Placed;

    closed spec fn view(&self) -> Placed {
        Placed {
            attached: self.attached@.map_values(|a: Attached| a.parts()),
            body: self.body@.map_values(|v: Vec<Comment>| v@),
            dangling: self.dangling@.map_values(|v: Vec<Comment>| v@),
        }
    }
}

impl CommentMap {
    pub closed spec fn openings(self) -> Seq<usize> {
        self.heredoc_openings@
    }

    /// No comment and no heredoc.
    pub fn new() -> (map: Self)
        ensures
            map@.attached == Map::<NodeId, Parts>::empty(),
            map@.body == Map::<NodeId, Seq<Comment>>::empty(),
            map@.dangling == Map::<NodeId, Seq<Comment>>::empty(),
            map.openings() == Seq::<usize>::empty(),
    {
        let map = CommentMap { attached: fx_new(), body: fx_new(), dangling: fx_new(), heredoc_openings: Vec::new() };
        proof {
            assert(map@.attached =~= Map::<NodeId, Parts>::empty());
            assert(map@.body =~= Map::<NodeId, Seq<Comment>>::empty());
            assert(map@.dangling =~= Map::<NodeId, Seq<Comment>>::empty());
        }
        map
    }

    /// The comments attached to the node with `key`.
    pub fn get_key(&self, key: &Key) -> (attached: Option<&Attached>)
        ensures
            attached is Some <==> self@.attached.contains_key(key.id()),
            attached matches Some(a) ==> a.parts() == self@.attached[key.id()],
    {
        fx_get(&self.attached, key.as_id())
    }

    /// Own-line comments in the body of the statement list with `key`.
    pub fn body(&self, key: &Key) -> (comments: &[Comment])
        ensures
            comments@ == list_at(self@.body, key.id()),
    {
        match fx_get(&self.body, key.as_id()) {
            Some(list) => list.as_slice(),
            None => {
                let empty: &[Comment] = &[];
                proof {
                    assert(empty@ =~= Seq::<Comment>::empty());
                }
                empty
            },
        }
    }

    /// Own-line comments in the node with `key` that no child claims.
    pub fn dangling(&self, key: &Key) -> (comments: &[Comment])
        ensures
            comments@ == list_at(self@.dangling, key.id()),
    {
        match fx_get(&self.dangling, key.as_id()) {
            Some(list) => list.as_slice(),
            None => {
                let empty: &[Comment] = &[];
                proof {
                    assert(empty@ =~= Seq::<Comment>::empty());
                }
                empty
            },
        }
    }

    /// Start offsets of every heredoc opener, in source order.
    pub fn heredoc_openings(&self) -> (openings: &[usize])
        ensures
            openings@ == self.openings(),
    {
        self.heredoc_openings.as_slice()
    }

    /// Adds `comment` at `target`, after what is already there.
    fn record(&mut self, target: Target, comment: Comment)
        ensures
            final(self)@ == record(old(self)@, target, comment),
            final(self).openings() == old(self).openings(),
    {
        match target {
            Target::Attach(key, slot) => {
                let id: NodeId = key.as_id();
                let mut attached: Attached = match fx_remove(&mut self.attached, id) {
                    Some(a) => a,
                    None => Attached::new(),
                };
                attached.push(slot, comment);
                fx_insert(&mut self.attached, id, attached);
                proof {
                    assert(self@.attached =~= record(old(self)@, target, comment).attached);
                }
            },
            Target::Body(key) => {
                let id: NodeId = key.as_id();
                let mut list: Vec<Comment> = match fx_remove(&mut self.body, id) {
                    Some(l) => l,
                    None => Vec::new(),
                };
                list.push(comment);
                fx_insert(&mut self.body, id, list);
                proof {
                    assert(self@.body =~= record(old(self)@, target, comment).body);
                }
            },
            Target::Dangle(key) => {
                let id: NodeId = key.as_id();
                let mut list: Vec<Comment> = match fx_remove(&mut self.dangling, id) {
                    Some(l) => l,
                    None => Vec::new(),
                };
                list.push(comment);
                fx_insert(&mut self.dangling, id, list);
                proof {
                    assert(self@.dangling =~= record(old(self)@, target, comment).dangling);
                }
            },
        }
    }
}


/// Every cursor stays within its node's children.
pub open spec fn cursors_fit(nodes: Seq<TreeNode>, children: Seq<usize>, cursors: Seq<usize>) -> bool {
    &&& cursors.len() == nodes.len()
    &&& forall|i: int| 0 <= i < nodes.len() ==> #[trigger] cursors[i] <= kids(children, nodes, i).len()
}

impl<'a> Tree<'a> {
    pub closed spec fn children_view(self) -> Seq<usize> {
        self.children@
    }

    /// Where node `node`'s children start and end in `children`.
    fn child_range(&self, node: usize) -> (range: (usize, usize))
        requires
            self.indexed(),
            node < self.nodes@.len(),
        ensures
            range.0 == self.nodes@[node as int].child_start,
            range.1 == self.nodes@[node as int].child_start + self.nodes@[node as int].child_count,
            range.1 <= self.children@.len(),
            kids(self.children@, self.nodes@, node as int) == self.children@.subrange(range.0 as int, range.1 as int),
            forall|k: int| range.0 <= k < range.1 ==> node < #[trigger] self.children@[k] < self.nodes@.len(),
    {
        let n: TreeNode = self.nodes[node];
        let total: usize = self.children.len();
        proof {
            assert(self.nodes@[node as int] == n);
            assert(n.child_start + n.child_count <= total);
            assert forall|k: int| n.child_start <= k < n.child_start + n.child_count implies node
                < #[trigger] self.children@[k] < self.nodes@.len() by {
                assert(self.nodes@[node as int] == n);
            }
        }
        (n.child_start, n.child_start + n.child_count)
    }

    /// Whether one of the children of `child` spans the comment.
    fn spans_entry(&self, child: usize, c: &Comment) -> (found: bool)
        requires
            self.indexed(),
            child < self.nodes@.len(),
        ensures
            found == entry_spans(self.nodes@, kids(self.children@, self.nodes@, child as int), *c),
    {
        let (start, end) = self.child_range(child);
        let ghost entries = kids(self.children@, self.nodes@, child as int);
        let mut k: usize = start;
        while k < end
            invariant
                self.indexed(),
                start <= k <= end,
                end <= self.children@.len(),
                entries == self.children@.subrange(start as int, end as int),
                entries == kids(self.children@, self.nodes@, child as int),
                forall|q: int| start <= q < end ==> #[trigger] self.children@[q] < self.nodes@.len(),
                forall|q: int|
                    0 <= q < k - start ==> !(self.nodes@[#[trigger] entries[q] as int].key.start <= c.start && c.end
                        <= self.nodes@[entries[q] as int].key.end),
            decreases end - k,
        {
            let entry: usize = self.children[k];
            let key: Key = self.nodes[entry].key;
            proof {
                assert(entries[k - start] == entry);
            }
            if key.start <= c.start && c.end <= key.end {
                proof {
                    assert(self.nodes@[entries[k - start] as int].key.start <= c.start && c.end <= self.nodes@[entries[k
                        - start] as int].key.end);
                    assert(entry_spans(self.nodes@, entries, *c));
                }
                return true;
            }
            k = k + 1;
        }
        proof {
            assert(!entry_spans(self.nodes@, entries, *c)) by {
                assert forall|q: int| 0 <= q < entries.len() implies !(self.nodes@[#[trigger] entries[q] as int].key.start
                    <= c.start && c.end <= self.nodes@[entries[q] as int].key.end) by {}
            }
        }
        false
    }

    /// Scanning back from `at`, the child of `node` that the comment lies in.
    fn containing_child(&self, node: usize, at: usize, c: &Comment, after_operator: bool) -> (inner: Option<usize>)
        requires
            self.indexed(),
            node < self.nodes@.len(),
            at <= kids(self.children@, self.nodes@, node as int).len(),
        ensures
            inner == containing(
                self.nodes@,
                self.children@,
                kids(self.children@, self.nodes@, node as int),
                at as int,
                at as int,
                *c,
                after_operator,
            ),
            inner matches Some(x) ==> node < x < self.nodes@.len(),
    {
        let (start, end) = self.child_range(node);
        let ghost ch = kids(self.children@, self.nodes@, node as int);
        let ghost target = containing(self.nodes@, self.children@, ch, at as int, at as int, *c, after_operator);
        let count: usize = end - start;
        let mut relative: usize = at;
        while relative > 0
            invariant
                self.indexed(),
                node < self.nodes@.len(),
                start == self.nodes@[node as int].child_start,
                end == start + count,
                end <= self.children@.len(),
                count == ch.len(),
                ch == self.children@.subrange(start as int, end as int),
                ch == kids(self.children@, self.nodes@, node as int),
                at <= count,
                relative <= at,
                target == containing(self.nodes@, self.children@, ch, at as int, at as int, *c, after_operator),
                target == containing(self.nodes@, self.children@, ch, at as int, relative as int, *c, after_operator),
                forall|k: int| start <= k < end ==> node < #[trigger] self.children@[k] < self.nodes@.len(),
            decreases relative,
        {
            if self.child_max_ends[start + relative - 1] < c.end {
                proof {
                    self.lemma_out_of_reach(node, relative as int, *c, at as int, after_operator);
                }
                return None;
            }
            relative = relative - 1;
            let child: usize = self.children[start + relative];
            proof {
                assert(ch[relative as int] == child);
            }
            let role: Role = self.nodes[child].role;
            let key: Key = self.nodes[child].key;
            let reach: usize = match role.heredoc_end.get() {
                Some(e) => if e > key.end {
                    e
                } else {
                    key.end
                },
                None => key.end,
            };
            if c.end > reach {
                continue;
            }
            if after_operator && role.list && !self.spans_entry(child, c) {
                continue;
            }
            let skip: bool = match role.content_start.get() {
                Some(content) => c.start < content && (!c.own_line || at < count),
                None => false,
            };
            if skip {
                continue;
            }
            return Some(child);
        }
        None
    }

    /// When no child before `rel` reaches the comment's end, none of them
    /// holds it.
    proof fn lemma_out_of_reach(&self, node: usize, rel: int, c: Comment, at: int, after_operator: bool)
        requires
            self.indexed(),
            node < self.nodes@.len(),
            0 < rel <= kids(self.children@, self.nodes@, node as int).len(),
            self.child_max_ends@[self.nodes@[node as int].child_start + rel - 1] < c.end,
        ensures
            containing(
                self.nodes@,
                self.children@,
                kids(self.children@, self.nodes@, node as int),
                at,
                rel,
                c,
                after_operator,
            ) is None,
        decreases rel,
    {
        let nodes = self.nodes@;
        let ch = kids(self.children@, nodes, node as int);
        let start = nodes[node as int].child_start;
        let k = start + rel - 1;
        assert(ch[rel - 1] == self.children@[k]);
        assert(nodes[node as int] == nodes[node as int] && self.children@[k] == self.children@[k]);
        assert(effective_end(nodes[self.children@[k] as int]) <= self.child_max_ends@[k]);
        assert(c.end > effective_end(nodes[ch[rel - 1] as int]));
        assert(containing(nodes, self.children@, ch, at, rel, c, after_operator) == containing(
            nodes,
            self.children@,
            ch,
            at,
            rel - 1,
            c,
            after_operator,
        ));
        if rel > 1 {
            assert(self.child_max_ends@[k - 1] <= self.child_max_ends@[k]);
            self.lemma_out_of_reach(node, rel - 1, c, at, after_operator);
        }
    }

    /// The nearest child of `node` before `at` that ends at or before
    /// `start`.
    fn preceding_child(&self, node: usize, at: usize, start: usize) -> (found: Option<usize>)
        requires
            self.indexed(),
            node < self.nodes@.len(),
            at <= kids(self.children@, self.nodes@, node as int).len(),
        ensures
            found == preceding(self.nodes@, kids(self.children@, self.nodes@, node as int), at as int, start),
            found matches Some(x) ==> node < x < self.nodes@.len(),
    {
        let (first, last) = self.child_range(node);
        let ghost ch = kids(self.children@, self.nodes@, node as int);
        let mut k: usize = at;
        while k > 0
            invariant
                self.indexed(),
                first + ch.len() == last,
                last <= self.children@.len(),
                ch == self.children@.subrange(first as int, last as int),
                ch == kids(self.children@, self.nodes@, node as int),
                k <= at <= ch.len(),
                preceding(self.nodes@, ch, at as int, start) == preceding(self.nodes@, ch, k as int, start),
                forall|q: int| first <= q < last ==> node < #[trigger] self.children@[q] < self.nodes@.len(),
            decreases k,
        {
            let child: usize = self.children[first + k - 1];
            proof {
                assert(ch[k - 1] == child);
            }
            if self.nodes[child].key.end <= start {
                return Some(child);
            }
            k = k - 1;
        }
        None
    }

    /// The first child of `node` from `at` on that starts at or after `end`.
    fn following_child(&self, node: usize, at: usize, end: usize) -> (found: Option<usize>)
        requires
            self.indexed(),
            node < self.nodes@.len(),
            at <= kids(self.children@, self.nodes@, node as int).len(),
        ensures
            found == following(self.nodes@, kids(self.children@, self.nodes@, node as int), at as int, end),
            found matches Some(x) ==> node < x < self.nodes@.len(),
    {
        let (first, last) = self.child_range(node);
        let ghost ch = kids(self.children@, self.nodes@, node as int);
        let mut j: usize = at;
        while j < last - first
            invariant
                self.indexed(),
                first + ch.len() == last,
                last <= self.children@.len(),
                ch == self.children@.subrange(first as int, last as int),
                ch == kids(self.children@, self.nodes@, node as int),
                at <= j <= ch.len(),
                following(self.nodes@, ch, at as int, end) == following(self.nodes@, ch, j as int, end),
                forall|q: int| first <= q < last ==> node < #[trigger] self.children@[q] < self.nodes@.len(),
            decreases ch.len() - j,
        {
            let child: usize = self.children[first + j];
            proof {
                assert(ch[j as int] == child);
            }
            if self.nodes[child].key.start >= end {
                return Some(child);
            }
            j = j + 1;
        }
        None
    }
}


impl<'a> Tree<'a> {
    /// Hands a comment aimed at a list to the entry it sits beside.
    fn descend_list(&self, target: usize, slot: Slot, inside_parens: bool) -> (result: usize)
        requires
            self.indexed(),
            target < self.nodes@.len(),
        ensures
            result == descend(self.nodes@, self.children@, target as int, slot, inside_parens),
            result < self.nodes@.len(),
    {
        let mut t: usize = target;
        loop
            invariant
                self.indexed(),
                t < self.nodes@.len(),
                descend(self.nodes@, self.children@, target as int, slot, inside_parens) == descend(
                    self.nodes@,
                    self.children@,
                    t as int,
                    slot,
                    inside_parens,
                ),
            decreases self.nodes@.len() - t,
        {
            let role: Role = self.nodes[t].role;
            let go: bool = role.list && match slot {
                Slot::Leading => true,
                Slot::Trailing => !role.parameters || inside_parens,
                Slot::Header => false,
            };
            if !go {
                return t;
            }
            let (first, last) = self.child_range(t);
            if first == last {
                return t;
            }
            let next: usize = if slot == Slot::Leading {
                self.children[first]
            } else {
                self.children[last - 1]
            };
            proof {
                let ch = kids(self.children@, self.nodes@, t as int);
                assert(ch[0] == self.children@[first as int]);
                assert(ch.last() == self.children@[last - 1]);
            }
            t = next;
        }
    }

    /// What the comment's neighbours among the children of `node` decide.
    fn decide_target(&self, node: usize, at: usize, c: &Comment, after_operator: bool) -> (target: Target)
        requires
            self.indexed(),
            node < self.nodes@.len(),
            at <= kids(self.children@, self.nodes@, node as int).len(),
        ensures
            target == decide(self.nodes@, self.children@, node as int, at as int, *c, after_operator),
    {
        let role: Role = self.nodes[node].role;
        let key: Key = self.nodes[node].key;
        let prev: Option<usize> = self.preceding_child(node, at, c.start);
        let next0: Option<usize> = self.following_child(node, at, c.end);
        let inside_parens: bool = match role.rparen.get() {
            Some(r) => c.start < r,
            None => false,
        };
        let next: Option<usize> = match next0 {
            Some(f) => {
                let before_rparen: bool = match role.rparen.get() {
                    Some(r) => self.nodes[f].key.start < r,
                    None => false,
                };
                if !inside_parens || before_rparen {
                    Some(f)
                } else {
                    None
                }
            },
            None => None,
        };
        if c.own_line && role.statements {
            return Target::Body(key);
        }
        if c.own_line {
            if let Some(f) = next {
                if self.nodes[f].role.statements {
                    return Target::Body(self.nodes[f].key);
                }
            }
            if let Some(p) = prev {
                if self.nodes[p].role.statements {
                    return Target::Body(self.nodes[p].key);
                }
                if self.nodes[p].role.clause && !self.nodes[p].role.else_clause {
                    let (first, last) = self.child_range(p);
                    if last > first {
                        let body: usize = self.children[last - 1];
                        proof {
                            assert(kids(self.children@, self.nodes@, p as int).last() == body);
                        }
                        if self.nodes[body].role.statements {
                            return Target::Body(self.nodes[body].key);
                        }
                    }
                }
            }
            if let Some(m) = role.chained_message.get() {
                if c.start < m {
                    return Target::Dangle(key);
                }
            }
        }
        let choice: Option<(usize, Slot)> = if c.own_line {
            if prev.is_some() && next.is_none() && inside_parens && self.nodes[prev.unwrap()].role.parameters {
                Some((prev.unwrap(), Slot::Trailing))
            } else if next.is_some() && !self.nodes[next.unwrap()].role.clause {
                Some((next.unwrap(), Slot::Leading))
            } else if prev.is_some() && next.is_none() && !role.bodied {
                Some((prev.unwrap(), Slot::Trailing))
            } else {
                None
            }
        } else {
            if prev.is_some() && after_operator {
                Some((node, Slot::Header))
            } else if prev.is_some() {
                Some((prev.unwrap(), Slot::Trailing))
            } else if next.is_some() && self.nodes[next.unwrap()].role.parameters {
                Some((next.unwrap(), Slot::Header))
            } else if next.is_some() && (role.call || (role.opens_statements && self.nodes[next.unwrap()].role.statements)) {
                Some((next.unwrap(), Slot::Leading))
            } else {
                Some((node, Slot::Header))
            }
        };
        match choice {
            Some((t, slot)) => {
                let chosen: usize = self.descend_list(t, slot, inside_parens);
                Target::Attach(self.nodes[chosen].key, slot)
            },
            None => Target::Dangle(key),
        }
    }

    /// Places `comment`, starting at `node`: into the child that holds it,
    /// else where its neighbours decide.
    fn place(&self, cursors: &mut Vec<usize>, node: usize, comment: Comment, map: &mut CommentMap)
        requires
            self.indexed(),
            node < self.nodes@.len(),
            cursors_fit(self.nodes@, self.children@, old(cursors)@),
        ensures
            cursors_fit(self.nodes@, self.children@, final(cursors)@),
            final(cursors)@ == placement(self.nodes@, self.children@, old(cursors)@, node as int, comment).0,
            final(map)@ == record(
                old(map)@,
                placement(self.nodes@, self.children@, old(cursors)@, node as int, comment).1,
                comment,
            ),
            final(map).openings() == old(map).openings(),
        decreases self.nodes@.len() - node,
    {
        let ghost ch = kids(self.children@, self.nodes@, node as int);
        let ghost start_cursors = cursors@;
        let (first, last) = self.child_range(node);
        let mut cursor: usize = cursors[node];
        proof {
            assert(cursors@[node as int] <= ch.len());
        }
        while cursor < last - first && self.nodes[self.children[first + cursor]].key.start <= comment.start
            invariant
                self.indexed(),
                first + ch.len() == last,
                last <= self.children@.len(),
                ch == self.children@.subrange(first as int, last as int),
                cursor <= ch.len(),
                forall|q: int| first <= q < last ==> node < #[trigger] self.children@[q] < self.nodes@.len(),
                advance(self.nodes@, ch, start_cursors[node as int] as int, comment.start) == advance(
                    self.nodes@,
                    ch,
                    cursor as int,
                    comment.start,
                ),
            decreases last - first - cursor,
        {
            proof {
                assert(ch[cursor as int] == self.children@[first + cursor]);
            }
            cursor = cursor + 1;
        }
        proof {
            if cursor < ch.len() {
                assert(ch[cursor as int] == self.children@[first + cursor]);
            }
        }
        cursors.set(node, cursor);
        proof {
            assert forall|i: int| 0 <= i < self.nodes@.len() implies #[trigger] cursors@[i] <= kids(
                self.children@,
                self.nodes@,
                i,
            ).len() by {
                if i != node {
                    assert(cursors@[i] == start_cursors[i]);
                }
            }
        }
        let at: usize = cursor;
        let role: Role = self.nodes[node].role;
        if comment.own_line {
            if let Some(tail) = role.else_tail.get() {
                if tail <= comment.start {
                    map.record(Target::Attach(self.nodes[node].key, Slot::Trailing), comment);
                    return;
                }
            }
        }
        let after_operator: bool = match role.operator_end.get() {
            Some(end) => end <= comment.start,
            None => false,
        };
        if let Some(inner) = self.containing_child(node, at, &comment, after_operator) {
            self.place(cursors, inner, comment, map);
            return;
        }
        let target: Target = self.decide_target(node, at, &comment, after_operator);
        map.record(target, comment);
    }
}


// ---------------------------------------------------------------------------
// Attaching every comment.

/// A comment as the parser reports it.
#[derive(Clone, Copy, Debug)]
pub struct RawComment {
    pub start: usize,
    pub end: usize,
    /// `=begin`/`=end` block.
    pub embdoc: bool,
}

/// ASCII whitespace: space, tab, line feed, form feed, carriage return.
pub open spec fn is_ascii_space(b: u8) -> bool {
    b == 32 || b == 9 || b == 10 || b == 12 || b == 13
}

/// The number of ASCII whitespace bytes that end `s`.
pub open spec fn trailing_space(s: Seq<u8>) -> nat
    decreases s.len(),
{
    if s.len() > 0 && is_ascii_space(s.last()) {
        1 + trailing_space(s.drop_last())
    } else {
        0
    }
}

/// Only whitespace precedes `start` on its line: every other byte before it
/// has a line feed after it, before `start`.
pub open spec fn starts_line(source: Seq<u8>, start: int) -> bool {
    forall|i: int|
        0 <= i < start && !is_ascii_space(#[trigger] source[i]) ==> exists|j: int|
            i < j < start && source[j] == 10u8
}

/// The comment a raw comment stands for: its end before trailing
/// whitespace, and whether it starts its line.
pub open spec fn comment_of(source: Seq<u8>, raw: RawComment) -> Comment {
    let text = source.subrange(raw.start as int, raw.end as int);
    Comment {
        start: raw.start,
        end: (raw.start + (text.len() - trailing_space(text))) as usize,
        own_line: starts_line(source, raw.start as int),
        embdoc: raw.embdoc,
    }
}

/// Places each comment in turn, from the root.
pub open spec fn place_all(
    nodes: Seq<TreeNode>,
    children: Seq<usize>,
    cursors: Seq<usize>,
    placed: Placed,
    comments: Seq<Comment>,
) -> Placed
    decreases comments.len(),
{
    if comments.len() == 0 {
        placed
    } else {
        let (moved, target) = placement(nodes, children, cursors, 0, comments[0]);
        place_all(nodes, children, moved, record(placed, target, comments[0]), comments.drop_first())
    }
}

/// Strictly increasing.
pub open spec fn strictly_increasing(s: Seq<usize>) -> bool {
    forall|i: int, j: int| 0 <= i < j < s.len() ==> #[trigger] s[i] < #[trigger] s[j]
}

proof fn lemma_trailing_space_le(s: Seq<u8>)
    ensures
        trailing_space(s) <= s.len(),
    decreases s.len(),
{
    if s.len() > 0 {
        lemma_trailing_space_le(s.drop_last());
    }
}

/// `bytes` without the ASCII whitespace that ends it.
pub fn trim_end(bytes: &[u8]) -> (trimmed: &[u8])
    ensures
        trimmed@ == bytes@.subrange(0, bytes@.len() - trailing_space(bytes@)),
{
    let mut len: usize = bytes.len();
    proof {
        assert(bytes@.subrange(0, len as int) =~= bytes@);
    }
    while len > 0 && (bytes[len - 1] == 32u8 || bytes[len - 1] == 9u8 || bytes[len - 1] == 10u8 || bytes[len - 1]
        == 12u8 || bytes[len - 1] == 13u8)
        invariant
            len <= bytes@.len(),
            trailing_space(bytes@) == (bytes@.len() - len) + trailing_space(bytes@.subrange(0, len as int)),
        decreases len,
    {
        proof {
            let s = bytes@.subrange(0, len as int);
            assert(s.last() == bytes@[len - 1]);
            assert(s.drop_last() =~= bytes@.subrange(0, len - 1));
        }
        len = len - 1;
    }
    proof {
        if len > 0 {
            assert(bytes@.subrange(0, len as int).last() == bytes@[len - 1]);
        }
    }
    vstd::slice::slice_subrange(bytes, 0, len)
}

/// `memchr::memrchr`: the index of the last `needle` in `haystack`, if any.
#[verifier::external_body]
fn last_index_of(needle: u8, haystack: &[u8]) -> (found: Option<usize>)
    ensures
        found matches Some(i) ==> i < haystack@.len() && haystack@[i as int] == needle && forall|j: int|
            i < j < haystack@.len() ==> haystack@[j] != needle,
        found is None ==> forall|j: int| 0 <= j < haystack@.len() ==> haystack@[j] != needle,
{
    memchr::memrchr(needle, haystack)
}

/// `memchr::memmem::find`: the first index where `needle` occurs in
/// `haystack`, if any.
#[verifier::external_body]
fn find_bytes(haystack: &[u8], needle: &[u8]) -> (found: Option<usize>)
    ensures
        found matches Some(i) ==> holds_at(haystack@, i as int, needle@) && forall|j: int|
            0 <= j < i ==> !holds_at(haystack@, j, needle@),
        found is None ==> forall|j: int| 0 <= j <= haystack@.len() ==> !holds_at(haystack@, j, needle@),
{
    memchr::memmem::find(haystack, needle)
}

/// Whether only whitespace precedes `start` on its line.
fn starts_own_line(source: &[u8], start: usize) -> (own: bool)
    requires
        start <= source@.len(),
    ensures
        own == starts_line(source@, start as int),
{
    let before: &[u8] = vstd::slice::slice_subrange(source, 0, start);
    let line_start: usize = match last_index_of(10u8, before) {
        Some(newline) => newline + 1,
        None => 0,
    };
    let mut k: usize = line_start;
    proof {
        assert forall|j: int| line_start <= j < start implies source@[j] != 10u8 by {
            assert(before@[j] == source@[j]);
        }
        if line_start > 0 {
            assert(before@[line_start - 1] == source@[line_start - 1]);
        }
    }
    while k < start
        invariant
            line_start <= k <= start <= source@.len(),
            before@ == source@.subrange(0, start as int),
            forall|j: int| line_start <= j < start ==> source@[j] != 10u8,
            line_start > 0 ==> source@[line_start - 1] == 10u8,
            forall|j: int| line_start <= j < k ==> is_ascii_space(#[trigger] source@[j]),
        decreases start - k,
    {
        let b: u8 = source[k];
        if !(b == 32u8 || b == 9u8 || b == 10u8 || b == 12u8 || b == 13u8) {
            proof {
                assert(before@[k as int] == source@[k as int]);
                assert forall|j: int| k < j < start implies source@[j] != 10u8 by {
                    assert(before@[j] == source@[j]);
                }
            }
            return false;
        }
        k = k + 1;
    }
    proof {
        assert forall|i: int|
            0 <= i < start && !is_ascii_space(#[trigger] source@[i]) implies exists|j: int|
                i < j < start && source@[j] == 10u8 by {
            assert(line_start > 0);
            assert(source@[line_start - 1] == 10u8);
            assert(i < line_start - 1);
        }
    }
    true
}

/// Whether there is anything for comment analysis to do: comments to
/// place, or a heredoc opener (`<<`) to index.
pub fn needs_analysis(source: &[u8], comment_count: usize) -> (needed: bool)
    ensures
        needed == (comment_count > 0 || exists|j: int| 0 <= j <= source@.len() && holds_at(source@, j, heredoc_bytes())),
{
    let opener: [u8; 2] = [60u8, 60u8];
    proof {
        assert(opener@ =~= heredoc_bytes());
    }
    if comment_count > 0 {
        return true;
    }
    match find_bytes(source, opener.as_slice()) {
        Some(i) => {
            proof {
                assert(holds_at(source@, i as int, heredoc_bytes()));
            }
            true
        },
        None => false,
    }
}

/// The set of `values`, in increasing order.
fn sorted_unique(values: &Vec<usize>) -> (sorted: Vec<usize>)
    ensures
        strictly_increasing(sorted@),
        forall|x: usize| sorted@.contains(x) <==> values@.contains(x),
{
    let mut sorted: Vec<usize> = Vec::new();
    let mut k: usize = 0;
    while k < values.len()
        invariant
            k <= values@.len(),
            strictly_increasing(sorted@),
            forall|x: usize| sorted@.contains(x) <==> values@.subrange(0, k as int).contains(x),
        decreases values.len() - k,
    {
        let x: usize = values[k];
        let mut i: usize = 0;
        while i < sorted.len() && sorted[i] < x
            invariant
                i <= sorted@.len(),
                forall|j: int| 0 <= j < i ==> #[trigger] sorted@[j] < x,
            decreases sorted.len() - i,
        {
            i = i + 1;
        }
        let ghost before = sorted@;
        if i < sorted.len() && sorted[i] == x {
        } else {
            sorted.insert(i, x);
            proof {
                let after = sorted@;
                assert(after =~= before.insert(i as int, x));
                assert forall|a: int, b: int| 0 <= a < b < after.len() implies #[trigger] after[a] < #[trigger] after[b] by {
                    if b < i {
                        assert(after[a] == before[a] && after[b] == before[b]);
                    } else if b == i {
                        assert(after[a] == before[a]);
                    } else if a == i {
                        assert(after[b] == before[b - 1]);
                        assert(before[i as int] > x || before[i as int] == x);
                        if b - 1 > i {
                            assert(before[i as int] < before[b - 1]);
                        }
                    } else if a < i {
                        assert(after[a] == before[a] && after[b] == before[b - 1]);
                    } else {
                        assert(after[a] == before[a - 1] && after[b] == before[b - 1]);
                    }
                }
            }
        }
        proof {
            let seen = values@.subrange(0, k + 1);
            assert(seen =~= values@.subrange(0, k as int).push(x));
            assert forall|y: usize| sorted@.contains(y) <==> seen.contains(y) by {
                if sorted@.contains(y) {
                    let w = choose|w: int| 0 <= w < sorted@.len() && sorted@[w] == y;
                    if y != x {
                        if before.len() < sorted@.len() {
                            if w < i {
                                assert(before[w] == y);
                            } else if w > i {
                                assert(before[w - 1] == y);
                            }
                        } else {
                            assert(before[w] == y);
                        }
                        assert(before.contains(y));
                        assert(values@.subrange(0, k as int).contains(y));
                        let v = choose|v: int| 0 <= v < k && values@.subrange(0, k as int)[v] == y;
                        assert(seen[v] == y);
                    } else {
                        assert(seen[k as int] == y);
                    }
                }
                if seen.contains(y) {
                    let v = choose|v: int| 0 <= v < seen.len() && seen[v] == y;
                    if v < k {
                        assert(values@.subrange(0, k as int)[v] == y);
                        assert(before.contains(y));
                        let w = choose|w: int| 0 <= w < before.len() && before[w] == y;
                        if before.len() < sorted@.len() {
                            if w < i {
                                assert(sorted@[w] == y);
                            } else {
                                assert(sorted@[w + 1] == y);
                            }
                        } else {
                            assert(sorted@[w] == y);
                        }
                    } else {
                        if before.len() < sorted@.len() {
                            assert(sorted@[i as int] == x);
                        } else {
                            assert(sorted@[i as int] == x);
                        }
                    }
                }
            }
        }
        k = k + 1;
    }
    proof {
        assert(values@.subrange(0, values@.len() as int) =~= values@);
    }
    sorted
}

/// Places every comment, in source order, and lists the heredoc openers.
pub fn attach(tree: &Tree, comments: &[RawComment]) -> (map: CommentMap)
    requires
        tree.indexed(),
        comments@.len() > 0 ==> tree.nodes_view().len() > 0,
        forall|k: int|
            0 <= k < comments@.len() ==> (#[trigger] comments@[k]).start <= comments@[k].end <= tree.source_view().len(),
    ensures
        map@ == place_all(
            tree.nodes_view(),
            tree.children_view(),
            Seq::new(tree.nodes_view().len(), |i: int| 0usize),
            Placed {
                attached: Map::empty(),
                body: Map::empty(),
                dangling: Map::empty(),
            },
            comments@.map_values(|raw: RawComment| comment_of(tree.source_view(), raw)),
        ),
        strictly_increasing(map.openings()),
        forall|x: usize| map.openings().contains(x) <==> tree.openings_view().contains(x),
        placed_count(map@) == comments@.len(),
{
    let ghost nodes = tree.nodes_view();
    let ghost children = tree.children_view();
    let ghost source = tree.source_view();
    let ghost all = comments@.map_values(|raw: RawComment| comment_of(source, raw));
    let mut map: CommentMap = CommentMap::new();
    let n: usize = tree.node_count();
    let mut cursors: Vec<usize> = Vec::new();
    let mut i: usize = 0;
    while i < n
        invariant
            i <= n,
            n == nodes.len(),
            cursors@ == Seq::new(i as nat, |j: int| 0usize),
        decreases n - i,
    {
        cursors.push(0);
        i = i + 1;
        proof {
            assert(cursors@ =~= Seq::new(i as nat, |j: int| 0usize));
        }
    }
    let ghost goal = place_all(nodes, children, cursors@, map@, all);
    proof {
        assert(map@ == Placed { attached: Map::empty(), body: Map::empty(), dangling: Map::empty() });
        assert(all.subrange(0, all.len() as int) =~= all);
    }
    let mut k: usize = 0;
    while k < comments.len()
        invariant
            tree.indexed(),
            nodes == tree.nodes_view(),
            children == tree.children_view(),
            source == tree.source_view(),
            all == comments@.map_values(|raw: RawComment| comment_of(source, raw)),
            comments@.len() > 0 ==> nodes.len() > 0,
            forall|q: int|
                0 <= q < comments@.len() ==> (#[trigger] comments@[q]).start <= comments@[q].end <= source.len(),
            k <= comments@.len(),
            cursors_fit(nodes, children, cursors@),
            place_all(nodes, children, cursors@, map@, all.subrange(k as int, all.len() as int)) == goal,
            map.openings() == Seq::<usize>::empty(),
        decreases comments.len() - k,
    {
        let raw: RawComment = comments[k];
        let text: &[u8] = vstd::slice::slice_subrange(tree.source, raw.start, raw.end);
        let trimmed: &[u8] = trim_end(text);
        proof {
            lemma_trailing_space_le(text@);
        }
        let comment: Comment = Comment {
            start: raw.start,
            end: raw.start + trimmed.len(),
            own_line: starts_own_line(tree.source, raw.start),
            embdoc: raw.embdoc,
        };
        proof {
            assert(comment == all[k as int]);
            let rest = all.subrange(k as int, all.len() as int);
            assert(rest[0] == comment);
            assert(rest.drop_first() =~= all.subrange(k + 1, all.len() as int));
        }
        tree.place(&mut cursors, 0, comment, &mut map);
        k = k + 1;
    }
    proof {
        assert(all.subrange(all.len() as int, all.len() as int) =~= Seq::<Comment>::empty());
        law_nothing_placed_at_first();
        law_every_comment_placed_once(
            nodes,
            children,
            Seq::new(nodes.len(), |i: int| 0usize),
            Placed { attached: Map::empty(), body: Map::empty(), dangling: Map::empty() },
            all,
        );
    }
    map.heredoc_openings = sorted_unique(&tree.heredoc_openings);
    map
}


// ---------------------------------------------------------------------------
// Laws of placement.

/// Recording a comment adds it at the end of exactly one list and leaves
/// every other list as it was.
pub proof fn law_record_places_once(p: Placed, t: Target, c: Comment)
    ensures
        match t {
            Target::Attach(k, slot) => {
                &&& record(p, t, c).attached[k.id()] == push_part(parts_at(p.attached, k.id()), slot, c)
                &&& forall|j: NodeId| j != k.id() ==> #[trigger] record(p, t, c).attached.contains_key(j)
                    == p.attached.contains_key(j) && record(p, t, c).attached[j] == p.attached[j]
                &&& record(p, t, c).body == p.body
                &&& record(p, t, c).dangling == p.dangling
            },
            Target::Body(k) => {
                &&& record(p, t, c).body[k.id()] == list_at(p.body, k.id()).push(c)
                &&& forall|j: NodeId| j != k.id() ==> #[trigger] record(p, t, c).body.contains_key(j)
                    == p.body.contains_key(j) && record(p, t, c).body[j] == p.body[j]
                &&& record(p, t, c).attached == p.attached
                &&& record(p, t, c).dangling == p.dangling
            },
            Target::Dangle(k) => {
                &&& record(p, t, c).dangling[k.id()] == list_at(p.dangling, k.id()).push(c)
                &&& forall|j: NodeId| j != k.id() ==> #[trigger] record(p, t, c).dangling.contains_key(j)
                    == p.dangling.contains_key(j) && record(p, t, c).dangling[j] == p.dangling[j]
                &&& record(p, t, c).attached == p.attached
                &&& record(p, t, c).body == p.body
            },
        },
{
}

// ---------------------------------------------------------------------------
// Every comment placed once.

/// The sum of `size` over the values of `m`.
pub open spec fn map_total<V>(m: Map<NodeId, V>, size: spec_fn(V) -> nat) -> nat {
    m.dom().fold(0nat, |acc: nat, k: NodeId| acc + size(m[k]))
}

/// The number of comments placed in all the lists.
pub open spec fn placed_count(p: Placed) -> nat {
    map_total(p.attached, |parts: Parts| parts.0.len() + parts.1.len() + parts.2.len()) + map_total(
        p.body,
        |list: Seq<Comment>| list.len(),
    ) + map_total(p.dangling, |list: Seq<Comment>| list.len())
}

/// Every map of the placement has finitely many keys.
pub open spec fn placed_finite(p: Placed) -> bool {
    p.attached.dom().finite() && p.body.dom().finite() && p.dangling.dom().finite()
}

/// Two folds whose steps agree on the set's elements agree.
proof fn lemma_fold_congruent(s: Set<NodeId>, f: spec_fn(nat, NodeId) -> nat, g: spec_fn(nat, NodeId) -> nat)
    requires
        s.finite(),
        vstd::set::fold::is_fun_commutative(f),
        vstd::set::fold::is_fun_commutative(g),
        forall|b: nat, a: NodeId| s.contains(a) ==> #[trigger] f(b, a) == g(b, a),
    ensures
        s.fold(0nat, f) == s.fold(0nat, g),
    decreases s.len(),
{
    if s.len() == 0 {
        assert(s =~= Set::<NodeId>::empty());
        vstd::set::fold::lemma_fold_empty(0nat, f);
        vstd::set::fold::lemma_fold_empty(0nat, g);
    } else {
        let a = s.choose();
        let rest = s.remove(a);
        lemma_fold_congruent(rest, f, g);
        assert(rest.insert(a) =~= s);
        vstd::set::fold::lemma_fold_insert(rest, 0nat, f, a);
        vstd::set::fold::lemma_fold_insert(rest, 0nat, g, a);
    }
}

/// Replacing or adding the value at `k` changes the total by the change in
/// that value's size.
proof fn lemma_total_insert<V>(m: Map<NodeId, V>, size: spec_fn(V) -> nat, k: NodeId, v: V)
    requires
        m.dom().finite(),
    ensures
        m.insert(k, v).dom().finite(),
        map_total(m.insert(k, v), size) + (if m.contains_key(k) {
            size(m[k])
        } else {
            0
        }) == map_total(m, size) + size(v),
{
    let n = m.insert(k, v);
    let f = |acc: nat, j: NodeId| acc + size(m[j]);
    let g = |acc: nat, j: NodeId| acc + size(n[j]);
    let rest = m.dom().remove(k);
    assert(vstd::set::fold::is_fun_commutative(f));
    assert(vstd::set::fold::is_fun_commutative(g));
    lemma_fold_congruent(rest, f, g);
    assert(n.dom() =~= rest.insert(k));
    vstd::set::fold::lemma_fold_insert(rest, 0nat, g, k);
    if m.contains_key(k) {
        assert(m.dom() =~= rest.insert(k));
        vstd::set::fold::lemma_fold_insert(rest, 0nat, f, k);
    } else {
        assert(m.dom() =~= rest);
    }
}

/// Recording a comment adds one to the count.
proof fn lemma_record_counts(p: Placed, t: Target, c: Comment)
    requires
        placed_finite(p),
    ensures
        placed_finite(record(p, t, c)),
        placed_count(record(p, t, c)) == placed_count(p) + 1,
{
    let parts_size = |parts: Parts| parts.0.len() + parts.1.len() + parts.2.len();
    let list_size = |list: Seq<Comment>| list.len();
    match t {
        Target::Attach(k, slot) => {
            lemma_total_insert(p.attached, parts_size, k.id(), push_part(parts_at(p.attached, k.id()), slot, c));
        },
        Target::Body(k) => {
            lemma_total_insert(p.body, list_size, k.id(), list_at(p.body, k.id()).push(c));
        },
        Target::Dangle(k) => {
            lemma_total_insert(p.dangling, list_size, k.id(), list_at(p.dangling, k.id()).push(c));
        },
    }
}

/// Placing comments puts each in exactly one list: the lists hold as many
/// comments more as were placed, each recording adding one comment to one
/// list and leaving the others as they were (`law_record_places_once`).
pub proof fn law_every_comment_placed_once(
    nodes: Seq<TreeNode>,
    children: Seq<usize>,
    cursors: Seq<usize>,
    placed: Placed,
    comments: Seq<Comment>,
)
    requires
        placed_finite(placed),
    ensures
        placed_finite(place_all(nodes, children, cursors, placed, comments)),
        placed_count(place_all(nodes, children, cursors, placed, comments)) == placed_count(placed) + comments.len(),
    decreases comments.len(),
{
    if comments.len() > 0 {
        let (moved, target) = placement(nodes, children, cursors, 0, comments[0]);
        lemma_record_counts(placed, target, comments[0]);
        law_every_comment_placed_once(nodes, children, moved, record(placed, target, comments[0]), comments.drop_first());
    }
}

/// Nothing is placed before the first comment.
pub proof fn law_nothing_placed_at_first()
    ensures
        placed_finite(Placed { attached: Map::empty(), body: Map::empty(), dangling: Map::empty() }),
        placed_count(Placed { attached: Map::empty(), body: Map::empty(), dangling: Map::empty() }) == 0,
{
    let parts_size = |parts: Parts| parts.0.len() + parts.1.len() + parts.2.len();
    let list_size = |list: Seq<Comment>| list.len();
    let e1 = Map::<NodeId, Parts>::empty();
    let e2 = Map::<NodeId, Seq<Comment>>::empty();
    assert(e1.dom() =~= Set::<NodeId>::empty());
    assert(e2.dom() =~= Set::<NodeId>::empty());
    vstd::set::fold::lemma_fold_empty(0nat, |acc: nat, k: NodeId| acc + parts_size(e1[k]));
    vstd::set::fold::lemma_fold_empty(0nat, |acc: nat, k: NodeId| acc + list_size(e2[k]));
}

/// Comments in source order.
pub open spec fn in_order(s: Seq<Comment>) -> bool {
    forall|i: int, j: int| 0 <= i < j < s.len() ==> #[trigger] s[i].start <= #[trigger] s[j].start
}

/// No comment in `s` starts after `at`.
pub open spec fn none_after(s: Seq<Comment>, at: usize) -> bool {
    forall|i: int| 0 <= i < s.len() ==> #[trigger] s[i].start <= at
}

/// Every list placed so far is in source order, and none of its comments
/// starts after `at`.
pub open spec fn ordered_until(p: Placed, at: usize) -> bool {
    &&& forall|k: NodeId|
        #[trigger] p.attached.contains_key(k) ==> in_order(p.attached[k].0) && in_order(p.attached[k].1) && in_order(
            p.attached[k].2,
        ) && none_after(p.attached[k].0, at) && none_after(p.attached[k].1, at) && none_after(p.attached[k].2, at)
    &&& forall|k: NodeId| #[trigger] p.body.contains_key(k) ==> in_order(p.body[k]) && none_after(p.body[k], at)
    &&& forall|k: NodeId|
        #[trigger] p.dangling.contains_key(k) ==> in_order(p.dangling[k]) && none_after(p.dangling[k], at)
}

proof fn lemma_push_in_order(s: Seq<Comment>, c: Comment, at: usize)
    requires
        in_order(s),
        none_after(s, at),
        at <= c.start,
    ensures
        in_order(s.push(c)),
        none_after(s.push(c), c.start),
{
    assert forall|i: int, j: int| 0 <= i < j < s.push(c).len() implies #[trigger] s.push(c)[i].start
        <= #[trigger] s.push(c)[j].start by {
        if j < s.len() {
            assert(s.push(c)[i] == s[i] && s.push(c)[j] == s[j]);
        } else {
            assert(s.push(c)[i] == s[i]);
        }
    }
    assert forall|i: int| 0 <= i < s.push(c).len() implies #[trigger] s.push(c)[i].start <= c.start by {
        if i < s.len() {
            assert(s.push(c)[i] == s[i]);
        }
    }
}

proof fn lemma_raise(s: Seq<Comment>, a: usize, b: usize)
    requires
        none_after(s, a),
        a <= b,
    ensures
        none_after(s, b),
{
}

/// Recording comments in source order keeps every list in source order.
proof fn lemma_record_ordered(p: Placed, t: Target, c: Comment, at: usize)
    requires
        ordered_until(p, at),
        at <= c.start,
    ensures
        ordered_until(record(p, t, c), c.start),
{
    let q = record(p, t, c);
    let empty = Seq::<Comment>::empty();
    assert(in_order(empty) && none_after(empty, at));
    assert forall|k: NodeId| #[trigger] q.attached.contains_key(k) implies in_order(q.attached[k].0) && in_order(
        q.attached[k].1,
    ) && in_order(q.attached[k].2) && none_after(q.attached[k].0, c.start) && none_after(q.attached[k].1, c.start)
        && none_after(q.attached[k].2, c.start) by {
        let old = parts_at(p.attached, k);
        assert(in_order(old.0) && in_order(old.1) && in_order(old.2));
        assert(none_after(old.0, at) && none_after(old.1, at) && none_after(old.2, at));
        lemma_raise(old.0, at, c.start);
        lemma_raise(old.1, at, c.start);
        lemma_raise(old.2, at, c.start);
        if let Target::Attach(key, slot) = t {
            if k == key.id() {
                match slot {
                    Slot::Leading => lemma_push_in_order(old.0, c, at),
                    Slot::Header => lemma_push_in_order(old.1, c, at),
                    Slot::Trailing => lemma_push_in_order(old.2, c, at),
                }
            }
        }
    }
    assert forall|k: NodeId| #[trigger] q.body.contains_key(k) implies in_order(q.body[k]) && none_after(
        q.body[k],
        c.start,
    ) by {
        let old = list_at(p.body, k);
        lemma_raise(old, at, c.start);
        if let Target::Body(key) = t {
            if k == key.id() {
                lemma_push_in_order(old, c, at);
            }
        }
    }
    assert forall|k: NodeId| #[trigger] q.dangling.contains_key(k) implies in_order(q.dangling[k]) && none_after(
        q.dangling[k],
        c.start,
    ) by {
        let old = list_at(p.dangling, k);
        lemma_raise(old, at, c.start);
        if let Target::Dangle(key) = t {
            if k == key.id() {
                lemma_push_in_order(old, c, at);
            }
        }
    }
}

/// Comments arriving in source order are kept in source order within every
/// list of placed comments: a node's leading, header and trailing comments,
/// a body's entries and a node's dangling comments.
pub proof fn law_placement_keeps_source_order(
    nodes: Seq<TreeNode>,
    children: Seq<usize>,
    cursors: Seq<usize>,
    p: Placed,
    at: usize,
    comments: Seq<Comment>,
)
    requires
        ordered_until(p, at),
        forall|i: int, j: int|
            0 <= i < j < comments.len() ==> #[trigger] comments[i].start <= #[trigger] comments[j].start,
        comments.len() > 0 ==> at <= comments[0].start,
    ensures
        ordered_until(
            place_all(nodes, children, cursors, p, comments),
            if comments.len() > 0 {
                comments.last().start
            } else {
                at
            },
        ),
    decreases comments.len(),
{
    if comments.len() > 0 {
        let (moved, target) = placement(nodes, children, cursors, 0, comments[0]);
        lemma_record_ordered(p, target, comments[0], at);
        let rest = comments.drop_first();
        assert forall|i: int, j: int| 0 <= i < j < rest.len() implies #[trigger] rest[i].start
            <= #[trigger] rest[j].start by {
            assert(rest[i] == comments[i + 1] && rest[j] == comments[j + 1]);
        }
        if rest.len() > 0 {
            assert(rest[0] == comments[1]);
            assert(comments[0].start <= comments[1].start);
            assert(rest.last() == comments.last());
        }
        law_placement_keeps_source_order(nodes, children, moved, record(p, target, comments[0]), comments[0].start, rest);
    }
}

} // verus!
