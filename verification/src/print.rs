//! The printer: lays a [`Document`] out within a line width.
//!
//! The printer is a stack machine over commands (a node, its indentation and
//! its mode). A group prints flat when its contents, followed by whatever of
//! the rest is needed to reach the next line break, fit in the remaining
//! width; otherwise it breaks. Line suffixes are queued and printed before
//! the next newline. Its semantics is [`rendered`]; [`print`] computes it as
//! a string and [`matches_source`] compares it with the source without
//! materialising it.

use vstd::prelude::*;
use vstd::utf8::valid_utf8;
use vstd::string::StringSliceAdditionalSpecFns;
use crate::doc::{Doc, DocModel, Document, Fragment, Separator, Span, LIMIT, node_weight, frag_weight, fragment_in, node_ok, text_span_in};
use crate::unicode::{char_count, all_ascii, lemma_valid_drop_last_ascii, lemma_valid_concat, lemma_ascii_valid, lemma_valid_append_ascii};
use vstd::utf8::{decode_utf8, encode_utf8, decode_utf8_encode_utf8};

verus! {

#[derive(Clone, Copy, Debug, PartialEq, Eq, Structural)]
pub enum Mode {
    Break,
    Flat,
}

/// A node to print, with the indentation and mode it prints in.
#[derive(Clone, Copy, Debug)]
pub struct Command {
    pub indent: usize,
    pub mode: Mode,
    pub id: u32,
}

/// A queued line suffix.
#[derive(Clone, Copy, Debug)]
pub struct Suffix {
    pub order: usize,
    pub priority: u8,
    pub indent: usize,
    pub mode: Mode,
    pub contents: Fragment,
}

#[derive(Clone, Copy, Debug)]
pub struct PrintOptions {
    pub line_width: usize,
    pub indent_width: usize,
    pub fit_indent_width: usize,
    /// Bytes reserved for the output; it does not affect what is printed.
    pub output_capacity: usize,
}

impl PrintOptions {
    /// Positive widths.
    pub open spec fn valid(self) -> bool {
        self.line_width > 0 && self.indent_width > 0 && self.fit_indent_width > 0
    }
}

pub open spec fn sat_add(a: usize, b: usize) -> usize {
    if a + b > usize::MAX {
        usize::MAX
    } else {
        (a + b) as usize
    }
}

pub open spec fn sat_sub(a: usize, b: usize) -> usize {
    if a < b {
        0
    } else {
        (a - b) as usize
    }
}

pub open spec fn sat_mul(a: usize, b: usize) -> usize {
    if a * b > usize::MAX {
        usize::MAX
    } else {
        (a * b) as usize
    }
}

/// A space or a tab.
pub open spec fn is_blank(b: u8) -> bool {
    b == 32 || b == 9
}

/// The number of spaces and tabs that end `s`.
pub open spec fn trailing_blanks(s: Seq<u8>) -> nat
    decreases s.len(),
{
    if s.len() > 0 && is_blank(s.last()) {
        1 + trailing_blanks(s.drop_last())
    } else {
        0
    }
}

/// `s` without the spaces and tabs that end it.
pub open spec fn trim_end(s: Seq<u8>) -> Seq<u8> {
    s.subrange(0, s.len() - trailing_blanks(s))
}

pub open spec fn spaces(n: nat) -> Seq<u8> {
    Seq::new(n, |i: int| 32u8)
}

/// `cmds` with the nodes of `f` pushed so that the first one is on top.
pub open spec fn pushed_fragment(cmds: Seq<Command>, m: DocModel, f: Fragment, indent: usize, mode: Mode) -> Seq<Command> {
    cmds + Seq::new(
        (f.end - f.start) as nat,
        |j: int| Command { indent, mode, id: m.children[f.end - 1 - j] },
    )
}

/// Suffix `a` goes onto the command stack before `b`, and so prints after
/// it: higher priority first; among equals,
/// the most recently queued first.
pub open spec fn suffix_before(a: Suffix, b: Suffix) -> bool {
    a.priority > b.priority || (a.priority == b.priority && a.order > b.order)
}

/// Inserts `x` after every entry of `sorted` that is not printed after it.
pub open spec fn insert_suffix(sorted: Seq<Suffix>, x: Suffix) -> Seq<Suffix>
    decreases sorted.len(),
{
    if sorted.len() == 0 {
        seq![x]
    } else if suffix_before(x, sorted[0]) {
        seq![x] + sorted
    } else {
        seq![sorted[0]] + insert_suffix(sorted.drop_first(), x)
    }
}

/// The stable sort of queued suffixes into the order they are pushed.
pub open spec fn sort_suffixes(s: Seq<Suffix>) -> Seq<Suffix>
    decreases s.len(),
{
    if s.len() == 0 {
        s
    } else {
        insert_suffix(sort_suffixes(s.drop_last()), s.last())
    }
}

/// `cmds` with the contents of each suffix pushed, in order.
pub open spec fn push_suffixes(cmds: Seq<Command>, m: DocModel, sorted: Seq<Suffix>) -> Seq<Command>
    decreases sorted.len(),
{
    if sorted.len() == 0 {
        cmds
    } else {
        push_suffixes(
            pushed_fragment(cmds, m, sorted[0].contents, sorted[0].indent, sorted[0].mode),
            m,
            sorted.drop_first(),
        )
    }
}

/// The text a `Text` or `Source` node prints.
pub open spec fn span_text(m: DocModel, source: Seq<u8>, d: Doc) -> Seq<u8> {
    match d {
        Doc::Text(s) => m.text.subrange(s.start as int, s.end as int),
        Doc::Source(s) => source.subrange(s.start as int, s.end as int),
        _ => Seq::empty(),
    }
}

/// Spaces emitted for an indentation measured in fit units.
pub open spec fn output_indent(indent: usize, o: PrintOptions) -> nat {
    (sat_mul(indent, o.indent_width) as int / o.fit_indent_width as int) as nat
}

/// The printer's state between two commands.
pub struct RenderState {
    pub cmds: Seq<Command>,
    pub out: Seq<u8>,
    pub position: usize,
    pub remeasure: bool,
    pub suffixes: Seq<Suffix>,
    pub order: usize,
}

/// The queued suffixes move onto the command stack in sorted order.
pub open spec fn flush(m: DocModel, st: RenderState) -> RenderState {
    RenderState { cmds: push_suffixes(st.cmds, m, sort_suffixes(st.suffixes)), suffixes: Seq::empty(), ..st }
}

/// The fit measurement's state.
pub struct FitState {
    pub cmds: Seq<Command>,
    pub rest_index: int,
    pub remaining: int,
    pub trailing: usize,
    pub done: Option<bool>,
}

/// Trailing blanks after printing `bytes` (of `width` columns) after
/// `previous` trailing blanks.
pub open spec fn appended_trailing(previous: usize, bytes: Seq<u8>, width: nat) -> usize {
    let t = trailing_blanks(bytes);
    if t == width {
        sat_add(previous, t as usize)
    } else {
        t as usize
    }
}

/// One step of measuring whether a group fits.
pub open spec fn fit_step(m: DocModel, source: Seq<u8>, indent_width: usize, rest: Seq<Command>, st: FitState) -> FitState {
    if st.done is Some {
        st
    } else if st.remaining < 0 {
        FitState { done: Some(false), ..st }
    } else if st.cmds.len() == 0 {
        if st.rest_index <= 0 {
            FitState { done: Some(true), ..st }
        } else {
            FitState { cmds: seq![rest[st.rest_index - 1]], rest_index: st.rest_index - 1, ..st }
        }
    } else {
        let c = st.cmds.last();
        let base = FitState { cmds: st.cmds.drop_last(), ..st };
        match m.docs[c.id as int] {
            Doc::Text(_) | Doc::Source(_) => {
                let b = span_text(m, source, m.docs[c.id as int]);
                let w = char_count(b);
                FitState { trailing: appended_trailing(st.trailing, b, w), remaining: st.remaining - w, ..base }
            },
            Doc::Group(g) => FitState {
                cmds: pushed_fragment(base.cmds, m, g.contents, c.indent, if g.broken { Mode::Break } else { c.mode }),
                ..base
            },
            Doc::Line(l) => if c.mode == Mode::Flat && !l.force {
                let b = l.separator.bytes();
                FitState { trailing: appended_trailing(st.trailing, b, b.len()), remaining: st.remaining - b.len(), ..base }
            } else {
                FitState { done: Some(true), ..base }
            },
            Doc::Indent(f) => FitState { cmds: pushed_fragment(base.cmds, m, f, sat_add(c.indent, indent_width), c.mode), ..base },
            Doc::Align(u, f) => FitState { cmds: pushed_fragment(base.cmds, m, f, sat_add(c.indent, u as usize), c.mode), ..base },
            Doc::Trim => FitState { remaining: st.remaining + st.trailing, trailing: 0, ..base },
            Doc::IfBreak { broken, flat } => FitState {
                cmds: pushed_fragment(base.cmds, m, if c.mode == Mode::Break { broken } else { flat }, c.indent, c.mode),
                ..base
            },
            _ => base,
        }
    }
}

/// The fit state after `n` steps.
pub open spec fn fit_steps(m: DocModel, source: Seq<u8>, indent_width: usize, rest: Seq<Command>, st: FitState, n: nat) -> FitState
    decreases n,
{
    if n == 0 {
        st
    } else {
        fit_step(m, source, indent_width, rest, fit_steps(m, source, indent_width, rest, st, (n - 1) as nat))
    }
}

/// The measurement's starting state.
pub open spec fn fit_start(m: DocModel, contents: Fragment, rest: Seq<Command>, indent: usize, remaining: int) -> FitState {
    FitState {
        cmds: pushed_fragment(Seq::empty(), m, contents, indent, Mode::Flat),
        rest_index: rest.len() as int,
        remaining,
        trailing: 0,
        done: None,
    }
}

/// Whether `contents` printed flat at `indent`, after `position` columns,
/// followed by whatever of `rest` is needed to reach the next line break,
/// fits in the line width.
pub open spec fn fits_spec(
    m: DocModel,
    source: Seq<u8>,
    o: PrintOptions,
    contents: Fragment,
    rest: Seq<Command>,
    indent: usize,
    position: usize,
) -> bool {
    if position > o.line_width {
        false
    } else {
        let start = fit_start(m, contents, rest, indent, o.line_width - position);
        let n = choose|n: nat| (#[trigger] fit_steps(m, source, o.fit_indent_width, rest, start, n)).done is Some;
        fit_steps(m, source, o.fit_indent_width, rest, start, n).done == Some(true)
    }
}

/// One printer step on the command on top of the stack. A flat line, and a
/// line that flushes queued suffixes, skip the end-of-step check; every
/// other step flushes the queued suffixes once the stack is empty.
pub open spec fn render_step(m: DocModel, source: Seq<u8>, o: PrintOptions, st: RenderState) -> RenderState {
    if st.cmds.len() == 0 {
        st
    } else {
        let c = st.cmds.last();
        let base = RenderState { cmds: st.cmds.drop_last(), ..st };
        match m.docs[c.id as int] {
            Doc::Line(l) => if c.mode == Mode::Flat && !l.force {
                RenderState {
                    out: base.out + l.separator.bytes(),
                    position: sat_add(base.position, l.separator.bytes().len() as usize),
                    ..base
                }
            } else {
                let remeasure = if c.mode == Mode::Flat { true } else { base.remeasure };
                if base.suffixes.len() > 0 {
                    flush(m, RenderState { cmds: base.cmds.push(c), remeasure, ..base })
                } else if l.indent {
                    RenderState {
                        out: trim_end(base.out) + seq![10u8] + spaces(output_indent(c.indent, o)),
                        position: c.indent,
                        remeasure,
                        ..base
                    }
                } else {
                    RenderState { out: base.out + seq![10u8], position: 0, remeasure, ..base }
                }
            },
            _ => {
                let next = render_other(m, source, o, base, c);
                if next.cmds.len() == 0 && next.suffixes.len() > 0 {
                    flush(m, next)
                } else {
                    next
                }
            },
        }
    }
}

/// A printer step on a node other than a line.
pub open spec fn render_other(m: DocModel, source: Seq<u8>, o: PrintOptions, base: RenderState, c: Command) -> RenderState {
    match m.docs[c.id as int] {
        Doc::Text(_) | Doc::Source(_) => {
            let b = span_text(m, source, m.docs[c.id as int]);
            RenderState { out: base.out + b, position: sat_add(base.position, char_count(b) as usize), ..base }
        },
        Doc::Group(g) => if c.mode == Mode::Flat && !base.remeasure {
            RenderState {
                cmds: pushed_fragment(base.cmds, m, g.contents, c.indent, if g.broken { Mode::Break } else { Mode::Flat }),
                ..base
            }
        } else {
            let mode = if g.broken {
                Mode::Break
            } else if fits_spec(m, source, o, g.contents, base.cmds, c.indent, base.position) {
                Mode::Flat
            } else {
                Mode::Break
            };
            RenderState { cmds: pushed_fragment(base.cmds, m, g.contents, c.indent, mode), remeasure: false, ..base }
        },
        Doc::Indent(f) => RenderState {
            cmds: pushed_fragment(base.cmds, m, f, sat_add(c.indent, o.fit_indent_width), c.mode),
            ..base
        },
        Doc::Align(u, f) => RenderState { cmds: pushed_fragment(base.cmds, m, f, sat_add(c.indent, u as usize), c.mode), ..base },
        Doc::Trim => {
            let removed = if trailing_blanks(base.out) > usize::MAX { usize::MAX } else { trailing_blanks(base.out) as usize };
            RenderState { out: trim_end(base.out), position: sat_sub(base.position, removed), ..base }
        },
        Doc::IfBreak { broken, flat } => RenderState {
            cmds: pushed_fragment(base.cmds, m, if c.mode == Mode::Break { broken } else { flat }, c.indent, c.mode),
            ..base
        },
        Doc::LineSuffix { priority, contents } => RenderState {
            suffixes: base.suffixes.push(Suffix { order: base.order, priority, indent: c.indent, mode: c.mode, contents }),
            order: sat_add(base.order, 1),
            ..base
        },
        _ => base,
    }
}

/// The printer state after `n` steps.
pub open spec fn render_steps(m: DocModel, source: Seq<u8>, o: PrintOptions, st: RenderState, n: nat) -> RenderState
    decreases n,
{
    if n == 0 {
        st
    } else {
        render_step(m, source, o, render_steps(m, source, o, st, (n - 1) as nat))
    }
}

/// The printer's starting state: the root nodes in break mode.
pub open spec fn render_start(m: DocModel) -> RenderState {
    RenderState {
        cmds: pushed_fragment(Seq::empty(), m, m.root, 0, Mode::Break),
        out: Seq::empty(),
        position: 0,
        remeasure: false,
        suffixes: Seq::empty(),
        order: 0,
    }
}

/// The bytes a document prints as.
pub open spec fn rendered(m: DocModel, source: Seq<u8>, o: PrintOptions) -> Seq<u8> {
    let n = choose|n: nat| (#[trigger] render_steps(m, source, o, render_start(m), n)).cmds.len() == 0;
    render_steps(m, source, o, render_start(m), n).out
}

/// Every `Source` node spans whole characters of `source`.
pub open spec fn sources_fit(m: DocModel, source: Seq<u8>) -> bool {
    forall|i: int|
        0 <= i < m.docs.len() ==> match #[trigger] m.docs[i] {
            Doc::Source(s) => s.start <= s.end <= source.len() && valid_utf8(source.subrange(s.start as int, s.end as int)),
            _ => true,
        }
}

// ---------------------------------------------------------------------------
// Measures: every printer step removes weight from the command stack.

/// The summed weights of the commands' nodes.
pub open spec fn cmds_weight(m: DocModel, cmds: Seq<Command>) -> nat
    decreases cmds.len(),
{
    if cmds.len() == 0 {
        0
    } else {
        cmds_weight(m, cmds.drop_last()) + node_weight(m.docs, m.children, cmds.last().id as int)
    }
}

/// The weight of a fragment of a well-formed document.
pub open spec fn fragment_weight(m: DocModel, f: Fragment) -> nat {
    frag_weight(m.docs, m.children, m.docs.len() as int, f.start as int, f.end as int)
}

/// The summed weights of queued suffixes.
pub open spec fn suffixes_weight(m: DocModel, s: Seq<Suffix>) -> nat
    decreases s.len(),
{
    if s.len() == 0 {
        0
    } else {
        fragment_weight(m, s[0].contents) + suffixes_weight(m, s.drop_first())
    }
}

/// Every command names a node and every suffix lists nodes.
pub open spec fn commands_ok(m: DocModel, cmds: Seq<Command>) -> bool {
    forall|k: int| 0 <= k < cmds.len() ==> #[trigger] cmds[k].id < m.docs.len()
}

pub open spec fn suffixes_ok(m: DocModel, s: Seq<Suffix>) -> bool {
    forall|k: int| 0 <= k < s.len() ==> fragment_in(m.children, #[trigger] s[k].contents, m.docs.len() as int)
}

/// What the printer's loop strictly decreases.
pub open spec fn render_measure(m: DocModel, st: RenderState) -> nat {
    2 * (cmds_weight(m, st.cmds) + suffixes_weight(m, st.suffixes)) + st.suffixes.len()
}

pub open spec fn render_state_ok(m: DocModel, st: RenderState) -> bool {
    commands_ok(m, st.cmds) && suffixes_ok(m, st.suffixes)
}

/// Counting edges below a larger bound changes nothing when every edge is
/// below the smaller one.
proof fn lemma_frag_weight_bound(docs: Seq<Doc>, children: Seq<u32>, b1: int, b2: int, start: int, end: int)
    requires
        0 <= b1 <= b2,
        0 <= start,
        end <= children.len(),
        forall|k: int| start <= k < end ==> #[trigger] children[k] < b1,
    ensures
        frag_weight(docs, children, b1, start, end) == frag_weight(docs, children, b2, start, end),
    decreases end - start,
{
    if start < end {
        lemma_frag_weight_bound(docs, children, b1, b2, start + 1, end);
    }
}

/// A container weighs one more than what its fragments weigh.
proof fn lemma_container(m: DocModel, id: int)
    requires
        m.wf(),
        0 <= id < m.docs.len(),
    ensures
        match m.docs[id] {
            Doc::Group(g) => node_weight(m.docs, m.children, id) == 1 + fragment_weight(m, g.contents)
                && fragment_in(m.children, g.contents, m.docs.len() as int),
            Doc::Indent(f) => node_weight(m.docs, m.children, id) == 1 + fragment_weight(m, f)
                && fragment_in(m.children, f, m.docs.len() as int),
            Doc::Align(_, f) => node_weight(m.docs, m.children, id) == 1 + fragment_weight(m, f)
                && fragment_in(m.children, f, m.docs.len() as int),
            Doc::IfBreak { broken, flat } => node_weight(m.docs, m.children, id) == 1 + fragment_weight(m, broken)
                + fragment_weight(m, flat) && fragment_in(m.children, broken, m.docs.len() as int)
                && fragment_in(m.children, flat, m.docs.len() as int),
            Doc::LineSuffix { contents, .. } => node_weight(m.docs, m.children, id) == 1 + fragment_weight(m, contents)
                && fragment_in(m.children, contents, m.docs.len() as int),
            _ => node_weight(m.docs, m.children, id) == 1,
        },
{
    assert(node_ok(m.docs, m.children, m.text, id));
    let n = m.docs.len() as int;
    match m.docs[id] {
        Doc::Group(g) => {
            lemma_frag_weight_bound(m.docs, m.children, id, n, g.contents.start as int, g.contents.end as int);
        },
        Doc::Indent(f) => {
            lemma_frag_weight_bound(m.docs, m.children, id, n, f.start as int, f.end as int);
        },
        Doc::Align(_, f) => {
            lemma_frag_weight_bound(m.docs, m.children, id, n, f.start as int, f.end as int);
        },
        Doc::IfBreak { broken, flat } => {
            lemma_frag_weight_bound(m.docs, m.children, id, n, broken.start as int, broken.end as int);
            lemma_frag_weight_bound(m.docs, m.children, id, n, flat.start as int, flat.end as int);
        },
        Doc::LineSuffix { contents, .. } => {
            lemma_frag_weight_bound(m.docs, m.children, id, n, contents.start as int, contents.end as int);
        },
        _ => {},
    }
}

/// Pushing a fragment adds its weight to the stack.
proof fn lemma_pushed_weight(m: DocModel, cmds: Seq<Command>, f: Fragment, indent: usize, mode: Mode)
    requires
        fragment_in(m.children, f, m.docs.len() as int),
    ensures
        cmds_weight(m, pushed_fragment(cmds, m, f, indent, mode)) == cmds_weight(m, cmds) + fragment_weight(m, f),
        commands_ok(m, cmds) ==> commands_ok(m, pushed_fragment(cmds, m, f, indent, mode)),
    decreases f.end - f.start,
{
    let p = pushed_fragment(cmds, m, f, indent, mode);
    if f.start < f.end {
        let g = Fragment { start: (f.start + 1) as u32, end: f.end };
        lemma_pushed_weight(m, cmds, g, indent, mode);
        let q = pushed_fragment(cmds, m, g, indent, mode);
        assert(p =~= q.push(Command { indent, mode, id: m.children[f.start as int] }));
        assert(p.drop_last() =~= q);
        if commands_ok(m, cmds) {
            assert forall|k: int| 0 <= k < p.len() implies #[trigger] p[k].id < m.docs.len() by {
                if k < q.len() {
                    assert(p[k] == q[k]);
                }
            }
        }
    } else {
        assert(p =~= cmds);
    }
}

proof fn lemma_suffixes_weight_push(m: DocModel, s: Seq<Suffix>, x: Suffix)
    ensures
        suffixes_weight(m, s.push(x)) == suffixes_weight(m, s) + fragment_weight(m, x.contents),
    decreases s.len(),
{
    if s.len() > 0 {
        lemma_suffixes_weight_push(m, s.drop_first(), x);
        assert(s.push(x).drop_first() =~= s.drop_first().push(x));
        assert(s.push(x)[0] == s[0]);
    } else {
        assert(s.push(x).drop_first() =~= Seq::<Suffix>::empty());
        assert(s.push(x)[0] == x);
        assert(suffixes_weight(m, Seq::<Suffix>::empty()) == 0);
    }
}

proof fn lemma_insert_suffix(m: DocModel, sorted: Seq<Suffix>, x: Suffix)
    ensures
        suffixes_weight(m, insert_suffix(sorted, x)) == suffixes_weight(m, sorted) + fragment_weight(m, x.contents),
        insert_suffix(sorted, x).len() == sorted.len() + 1,
        suffixes_ok(m, sorted) && fragment_in(m.children, x.contents, m.docs.len() as int) ==> suffixes_ok(
            m,
            insert_suffix(sorted, x),
        ),
    decreases sorted.len(),
{
    let r = insert_suffix(sorted, x);
    if sorted.len() == 0 {
        assert(seq![x].drop_first() =~= Seq::<Suffix>::empty());
        assert(suffixes_weight(m, Seq::<Suffix>::empty()) == 0);
        assert(r[0] == x);
    } else if suffix_before(x, sorted[0]) {
        assert(r.drop_first() =~= sorted);
        assert(r[0] == x);
        if suffixes_ok(m, sorted) && fragment_in(m.children, x.contents, m.docs.len() as int) {
            assert forall|k: int| 0 <= k < r.len() implies fragment_in(m.children, #[trigger] r[k].contents, m.docs.len() as int) by {
                if k > 0 {
                    assert(r[k] == sorted[k - 1]);
                }
            }
        }
    } else {
        lemma_insert_suffix(m, sorted.drop_first(), x);
        let rest = insert_suffix(sorted.drop_first(), x);
        assert(r.drop_first() =~= rest);
        assert(r[0] == sorted[0]);
        if suffixes_ok(m, sorted) && fragment_in(m.children, x.contents, m.docs.len() as int) {
            assert(suffixes_ok(m, sorted.drop_first())) by {
                assert forall|k: int| 0 <= k < sorted.drop_first().len() implies fragment_in(m.children, #[trigger] sorted.drop_first()[k].contents, m.docs.len() as int) by {
                    assert(sorted.drop_first()[k] == sorted[k + 1]);
                }
            }
            assert forall|k: int| 0 <= k < r.len() implies fragment_in(m.children, #[trigger] r[k].contents, m.docs.len() as int) by {
                if k > 0 {
                    assert(r[k] == rest[k - 1]);
                } else {
                    assert(r[0] == sorted[0]);
                }
            }
        }
    }
}

proof fn lemma_sort_suffixes(m: DocModel, s: Seq<Suffix>)
    ensures
        suffixes_weight(m, sort_suffixes(s)) == suffixes_weight(m, s),
        sort_suffixes(s).len() == s.len(),
        suffixes_ok(m, s) ==> suffixes_ok(m, sort_suffixes(s)),
    decreases s.len(),
{
    if s.len() > 0 {
        let d = s.drop_last();
        lemma_sort_suffixes(m, d);
        lemma_insert_suffix(m, sort_suffixes(d), s.last());
        assert(d.push(s.last()) =~= s);
        lemma_suffixes_weight_push(m, d, s.last());
        if suffixes_ok(m, s) {
            assert(suffixes_ok(m, d)) by {
                assert forall|k: int| 0 <= k < d.len() implies fragment_in(m.children, #[trigger] d[k].contents, m.docs.len() as int) by {
                    assert(d[k] == s[k]);
                }
            }
            assert(fragment_in(m.children, s[s.len() - 1].contents, m.docs.len() as int));
        }
    }
}

proof fn lemma_push_suffixes(m: DocModel, cmds: Seq<Command>, sorted: Seq<Suffix>)
    requires
        suffixes_ok(m, sorted),
    ensures
        cmds_weight(m, push_suffixes(cmds, m, sorted)) == cmds_weight(m, cmds) + suffixes_weight(m, sorted),
        commands_ok(m, cmds) ==> commands_ok(m, push_suffixes(cmds, m, sorted)),
    decreases sorted.len(),
{
    if sorted.len() > 0 {
        let s0 = sorted[0];
        assert(fragment_in(m.children, s0.contents, m.docs.len() as int));
        lemma_pushed_weight(m, cmds, s0.contents, s0.indent, s0.mode);
        let rest = sorted.drop_first();
        assert(suffixes_ok(m, rest)) by {
            assert forall|k: int| 0 <= k < rest.len() implies fragment_in(m.children, #[trigger] rest[k].contents, m.docs.len() as int) by {
                assert(rest[k] == sorted[k + 1]);
            }
        }
        lemma_push_suffixes(m, pushed_fragment(cmds, m, s0.contents, s0.indent, s0.mode), rest);
    }
}

/// Flushing keeps the total weight and empties the queue.
proof fn lemma_flush(m: DocModel, st: RenderState)
    requires
        render_state_ok(m, st),
    ensures
        render_state_ok(m, flush(m, st)),
        cmds_weight(m, flush(m, st).cmds) + suffixes_weight(m, flush(m, st).suffixes) == cmds_weight(m, st.cmds)
            + suffixes_weight(m, st.suffixes),
        flush(m, st).suffixes.len() == 0,
{
    lemma_sort_suffixes(m, st.suffixes);
    lemma_push_suffixes(m, st.cmds, sort_suffixes(st.suffixes));
    assert(suffixes_weight(m, Seq::<Suffix>::empty()) == 0);
    assert(suffixes_ok(m, Seq::<Suffix>::empty()));
}

proof fn lemma_cmds_pop(m: DocModel, cmds: Seq<Command>)
    requires
        cmds.len() > 0,
        commands_ok(m, cmds),
    ensures
        cmds_weight(m, cmds) == cmds_weight(m, cmds.drop_last()) + node_weight(m.docs, m.children, cmds.last().id as int),
        commands_ok(m, cmds.drop_last()),
        cmds.last().id < m.docs.len(),
{
    assert(cmds.last() == cmds[cmds.len() - 1]);
}

/// Every printer step keeps the state valid and strictly lowers the measure.
proof fn lemma_render_step(m: DocModel, source: Seq<u8>, o: PrintOptions, st: RenderState)
    requires
        m.wf(),
        render_state_ok(m, st),
        st.cmds.len() > 0,
    ensures
        render_state_ok(m, render_step(m, source, o, st)),
        render_measure(m, render_step(m, source, o, st)) < render_measure(m, st),
{
    let c = st.cmds.last();
    let base = RenderState { cmds: st.cmds.drop_last(), ..st };
    lemma_cmds_pop(m, st.cmds);
    lemma_container(m, c.id as int);
    let next = render_step(m, source, o, st);
    match m.docs[c.id as int] {
        Doc::Line(l) => {
            if c.mode == Mode::Flat && !l.force {
            } else if base.suffixes.len() > 0 {
                let remeasure = if c.mode == Mode::Flat { true } else { base.remeasure };
                let pre = RenderState { cmds: base.cmds.push(c), remeasure, ..base };
                assert(pre.cmds.drop_last() =~= base.cmds);
                assert(commands_ok(m, pre.cmds)) by {
                    assert forall|k: int| 0 <= k < pre.cmds.len() implies #[trigger] pre.cmds[k].id < m.docs.len() by {
                        if k < base.cmds.len() {
                            assert(pre.cmds[k] == base.cmds[k]);
                        }
                    }
                }
                lemma_flush(m, pre);
            }
        },
        _ => {
            let other = render_other(m, source, o, base, c);
            match m.docs[c.id as int] {
                Doc::Group(g) => {
                    lemma_pushed_weight(m, base.cmds, g.contents, c.indent, Mode::Break);
                    lemma_pushed_weight(m, base.cmds, g.contents, c.indent, Mode::Flat);
                },
                Doc::Indent(f) => {
                    lemma_pushed_weight(m, base.cmds, f, sat_add(c.indent, o.fit_indent_width), c.mode);
                },
                Doc::Align(u, f) => {
                    lemma_pushed_weight(m, base.cmds, f, sat_add(c.indent, u as usize), c.mode);
                },
                Doc::IfBreak { broken, flat } => {
                    lemma_pushed_weight(m, base.cmds, broken, c.indent, c.mode);
                    lemma_pushed_weight(m, base.cmds, flat, c.indent, c.mode);
                },
                Doc::LineSuffix { priority, contents } => {
                    let x = Suffix { order: base.order, priority, indent: c.indent, mode: c.mode, contents };
                    lemma_suffixes_weight_push(m, base.suffixes, x);
                    assert(suffixes_ok(m, base.suffixes.push(x))) by {
                        assert forall|k: int| 0 <= k < base.suffixes.push(x).len() implies fragment_in(m.children, #[trigger] base.suffixes.push(x)[k].contents, m.docs.len() as int) by {
                            if k < base.suffixes.len() {
                                assert(base.suffixes.push(x)[k] == base.suffixes[k]);
                            }
                        }
                    }
                },
                _ => {},
            }
            assert(render_state_ok(m, other));
            assert(render_measure(m, other) < render_measure(m, st) + 1);
            if other.cmds.len() == 0 && other.suffixes.len() > 0 {
                lemma_flush(m, other);
            }
        },
    }
}


// ---------------------------------------------------------------------------
// Facts about trailing blanks and widths.

proof fn lemma_trailing_le_len(s: Seq<u8>)
    ensures
        trailing_blanks(s) <= s.len(),
    decreases s.len(),
{
    if s.len() > 0 {
        lemma_trailing_le_len(s.drop_last());
    }
}

/// Trailing blanks are whole characters.
proof fn lemma_trailing_le_chars(s: Seq<u8>)
    ensures
        trailing_blanks(s) <= char_count(s),
        char_count(s) <= s.len(),
    decreases s.len(),
{
    if s.len() > 0 {
        lemma_trailing_le_chars(s.drop_last());
    }
}

proof fn lemma_appended_bound(previous: usize, bytes: Seq<u8>, width: nat)
    requires
        trailing_blanks(bytes) <= width,
    ensures
        appended_trailing(previous, bytes, width) <= previous + width,
{
}

// ---------------------------------------------------------------------------
// Executable helpers.

/// Pushes the nodes of `docs` so that the first one is on top.
fn push_all(commands: &mut Vec<Command>, document: &Document, docs: Fragment, indent: usize, mode: Mode)
    requires
        document@.wf(),
        fragment_in(document@.children, docs, document@.docs.len() as int),
    ensures
        final(commands)@ == pushed_fragment(old(commands)@, document@, docs, indent, mode),
{
    let ghost initial = commands@;
    let ghost m = document@;
    let mut k: usize = docs.end as usize;
    while k > docs.start as usize
        invariant
            m == document@,
            m.wf(),
            fragment_in(m.children, docs, m.docs.len() as int),
            docs.start <= k <= docs.end,
            commands@ == initial + Seq::new(
                (docs.end - k) as nat,
                |j: int| Command { indent, mode, id: m.children[docs.end - 1 - j] },
            ),
        decreases k,
    {
        k = k - 1;
        let id: u32 = document.edge(k);
        commands.push(Command { indent, mode, id });
        proof {
            assert(commands@ =~= initial + Seq::new(
                (docs.end - k) as nat,
                |j: int| Command { indent, mode, id: m.children[docs.end - 1 - j] },
            ));
        }
    }
}

/// The number of characters `bytes` encode.
pub(crate) fn text_width(bytes: &[u8]) -> (width: usize)
    ensures
        width == char_count(bytes@),
{
    let mut width: usize = 0;
    let mut k: usize = 0;
    while k < bytes.len()
        invariant
            k <= bytes@.len(),
            width == char_count(bytes@.subrange(0, k as int)),
            width <= k,
        decreases bytes.len() - k,
    {
        let b: u8 = bytes[k];
        proof {
            let next = bytes@.subrange(0, k + 1);
            assert(next.drop_last() =~= bytes@.subrange(0, k as int));
            assert(next.last() == b);
        }
        if !(0x80u8 <= b && b <= 0xbfu8) {
            width = width + 1;
        }
        k = k + 1;
    }
    proof {
        assert(bytes@.subrange(0, bytes@.len() as int) =~= bytes@);
    }
    width
}

/// The number of spaces and tabs that end `bytes`.
fn trailing_blank_count(bytes: &[u8]) -> (count: usize)
    ensures
        count == trailing_blanks(bytes@),
{
    let mut k: usize = bytes.len();
    proof {
        assert(bytes@.subrange(0, bytes@.len() as int) =~= bytes@);
    }
    while k > 0 && (bytes[k - 1] == 32u8 || bytes[k - 1] == 9u8)
        invariant
            k <= bytes@.len(),
            trailing_blanks(bytes@) == (bytes@.len() - k) + trailing_blanks(bytes@.subrange(0, k as int)),
        decreases k,
    {
        proof {
            let s = bytes@.subrange(0, k as int);
            assert(s.last() == bytes@[k - 1]);
            assert(s.drop_last() =~= bytes@.subrange(0, k - 1));
        }
        k = k - 1;
    }
    proof {
        let s = bytes@.subrange(0, k as int);
        assert(bytes@.subrange(0, bytes@.len() as int) =~= bytes@);
        if k > 0 {
            assert(s.last() == bytes@[k - 1]);
        }
    }
    bytes.len() - k
}

/// Trailing blanks after printing `text` (of `width` columns) after
/// `previous` trailing blanks.
fn appended_trailing_whitespace(previous: usize, text: &[u8], width: usize) -> (trailing: usize)
    ensures
        trailing == appended_trailing(previous, text@, width as nat),
{
    let trailing: usize = trailing_blank_count(text);
    if trailing == width {
        previous.saturating_add(trailing)
    } else {
        trailing
    }
}

// ---------------------------------------------------------------------------
// Measuring whether a group fits.

/// Once the measurement is done, further steps change nothing.
proof fn lemma_fit_steps_stable(
    m: DocModel,
    source: Seq<u8>,
    iw: usize,
    rest: Seq<Command>,
    st: FitState,
    n1: nat,
    n2: nat,
)
    requires
        n1 <= n2,
        fit_steps(m, source, iw, rest, st, n1).done is Some,
    ensures
        fit_steps(m, source, iw, rest, st, n2) == fit_steps(m, source, iw, rest, st, n1),
    decreases n2,
{
    if n2 > n1 {
        lemma_fit_steps_stable(m, source, iw, rest, st, n1, (n2 - 1) as nat);
    }
}

/// The measurement's answer is the one of its first finished state.
proof fn lemma_fit_result(
    m: DocModel,
    source: Seq<u8>,
    o: PrintOptions,
    contents: Fragment,
    rest: Seq<Command>,
    indent: usize,
    position: usize,
    k: nat,
)
    requires
        position <= o.line_width,
        fit_steps(m, source, o.fit_indent_width, rest, fit_start(m, contents, rest, indent, o.line_width - position), k).done is None,
        fit_steps(m, source, o.fit_indent_width, rest, fit_start(m, contents, rest, indent, o.line_width - position), k + 1).done is Some,
    ensures
        fits_spec(m, source, o, contents, rest, indent, position) == (fit_steps(
            m,
            source,
            o.fit_indent_width,
            rest,
            fit_start(m, contents, rest, indent, o.line_width - position),
            k + 1,
        ).done == Some(true)),
{
    let start = fit_start(m, contents, rest, indent, o.line_width - position);
    let iw = o.fit_indent_width;
    let n = choose|n: nat| (#[trigger] fit_steps(m, source, iw, rest, start, n)).done is Some;
    assert(fit_steps(m, source, iw, rest, start, (k + 1) as nat).done is Some);
    if n <= k {
        lemma_fit_steps_stable(m, source, iw, rest, start, n, k);
    } else {
        lemma_fit_steps_stable(m, source, iw, rest, start, (k + 1) as nat, n);
    }
}

/// Whether `contents` printed flat at `indent`, after `position` columns,
/// followed by whatever of `rest` is needed to reach the next line break,
/// fits in the line width. `scratch` is reused storage.
fn fits(
    document: &Document,
    source: &[u8],
    options: PrintOptions,
    contents: Fragment,
    rest: &Vec<Command>,
    indent: usize,
    position: usize,
    scratch: &mut Vec<Command>,
) -> (fit: bool)
    requires
        document@.wf(),
        fragment_in(document@.children, contents, document@.docs.len() as int),
        commands_ok(document@, rest@),
        sources_fit(document@, source@),
    ensures
        fit == fits_spec(document@, source@, options, contents, rest@, indent, position),
{
    let ghost m = document@;
    if position > options.line_width {
        return false;
    }
    let ghost start = fit_start(m, contents, rest@, indent, options.line_width - position);
    let ghost iw = options.fit_indent_width;
    let mut remaining: i128 = (options.line_width - position) as i128;
    let mut rest_index: usize = rest.len();
    scratch.clear();
    push_all(scratch, document, contents, indent, Mode::Flat);
    let mut trailing: usize = 0;
    let ghost mut k: nat = 0;
    proof {
        assert(commands_ok(m, Seq::<Command>::empty()));
        lemma_pushed_weight(m, Seq::empty(), contents, indent, Mode::Flat);
    }
    loop
        invariant
            m == document@,
            m.wf(),
            sources_fit(m, source@),
            commands_ok(m, rest@),
            position <= options.line_width,
            iw == options.fit_indent_width,
            start == fit_start(m, contents, rest@, indent, options.line_width - position),
            rest_index <= rest@.len(),
            commands_ok(m, scratch@),
            fit_steps(m, source@, iw, rest@, start, k) == (FitState {
                cmds: scratch@,
                rest_index: rest_index as int,
                remaining: remaining as int,
                trailing,
                done: None,
            }),
            remaining + trailing <= usize::MAX,
            remaining >= -(usize::MAX as int),
        decreases rest_index, cmds_weight(m, scratch@),
    {
        let ghost st = fit_steps(m, source@, iw, rest@, start, k);
        if remaining < 0 {
            proof {
                lemma_fit_result(m, source@, options, contents, rest@, indent, position, k);
            }
            return false;
        }
        if scratch.len() == 0 {
            if rest_index == 0 {
                proof {
                    lemma_fit_result(m, source@, options, contents, rest@, indent, position, k);
                }
                return true;
            }
            rest_index = rest_index - 1;
            let next: Command = rest[rest_index];
            scratch.push(next);
            proof {
                assert(scratch@ =~= seq![rest@[rest_index as int]]);
                assert(commands_ok(m, scratch@)) by {
                    assert(rest@[rest_index as int].id < m.docs.len());
                }
                k = k + 1;
            }
            continue;
        }
        let ghost before = scratch@;
        let c: Command = scratch.pop().unwrap();
        proof {
            lemma_cmds_pop(m, before);
            assert(c == before.last());
            assert(scratch@ == before.drop_last());
            lemma_container(m, c.id as int);
        }
        match document.node(c.id) {
            Doc::Text(span) => {
                proof {
                    assert(node_ok(m.docs, m.children, m.text, c.id as int));
                }
                let bytes: &[u8] = document.text_bytes(span);
                let width: usize = text_width(bytes);
                proof {
                    lemma_trailing_le_chars(bytes@);
                    lemma_appended_bound(trailing, bytes@, width as nat);
                }
                trailing = appended_trailing_whitespace(trailing, bytes, width);
                remaining = remaining - width as i128;
            },
            Doc::Source(span) => {
                proof {
                    assert(sources_fit(m, source@));
                    assert(match m.docs[c.id as int] {
                        Doc::Source(s) => s.start <= s.end <= source@.len(),
                        _ => true,
                    });
                }
                let bytes: &[u8] = vstd::slice::slice_subrange(source, span.start as usize, span.end as usize);
                let width: usize = text_width(bytes);
                proof {
                    lemma_trailing_le_chars(bytes@);
                    lemma_appended_bound(trailing, bytes@, width as nat);
                }
                trailing = appended_trailing_whitespace(trailing, bytes, width);
                remaining = remaining - width as i128;
            },
            Doc::Group(g) => {
                let next: Mode = if g.broken { Mode::Break } else { c.mode };
                proof {
                    lemma_pushed_weight(m, scratch@, g.contents, c.indent, next);
                }
                push_all(scratch, document, g.contents, c.indent, next);
            },
            Doc::Line(line) => {
                if c.mode == Mode::Flat && !line.force {
                    let width: usize = match line.separator {
                        Separator::Empty => 0,
                        Separator::Space => 1,
                    };
                    let ghost b = line.separator.bytes();
                    if width == 1 {
                        proof {
                            reveal_with_fuel(trailing_blanks, 2);
                            assert(b.drop_last() =~= Seq::<u8>::empty());
                        }
                        trailing = trailing.saturating_add(1);
                    } else {
                        trailing = trailing;
                    }
                    remaining = remaining - width as i128;
                    proof {
                        k = k + 1;
                    }
                    continue;
                }
                proof {
                    lemma_fit_result(m, source@, options, contents, rest@, indent, position, k);
                }
                return true;
            },
            Doc::Indent(f) => {
                let next_indent: usize = c.indent.saturating_add(options.fit_indent_width);
                proof {
                    lemma_pushed_weight(m, scratch@, f, next_indent, c.mode);
                }
                push_all(scratch, document, f, next_indent, c.mode);
            },
            Doc::Align(units, f) => {
                let next_indent: usize = c.indent.saturating_add(units as usize);
                proof {
                    lemma_pushed_weight(m, scratch@, f, next_indent, c.mode);
                }
                push_all(scratch, document, f, next_indent, c.mode);
            },
            Doc::Trim => {
                remaining = remaining + trailing as i128;
                trailing = 0;
            },
            Doc::IfBreak { broken, flat } => {
                let chosen: Fragment = if c.mode == Mode::Break { broken } else { flat };
                proof {
                    lemma_pushed_weight(m, scratch@, chosen, c.indent, c.mode);
                }
                push_all(scratch, document, chosen, c.indent, c.mode);
            },
            _ => {},
        }
        proof {
            k = k + 1;
        }
    }
}


// ---------------------------------------------------------------------------
// Trailing blanks under appends and trims.

/// `n`, or `usize::MAX` where `n` is larger.
pub open spec fn min_usize(n: nat) -> usize {
    if n > usize::MAX {
        usize::MAX
    } else {
        n as usize
    }
}

/// `p` is the start of `e`.
pub open spec fn is_prefix_of(p: Seq<u8>, e: Seq<u8>) -> bool {
    p.len() <= e.len() && e.subrange(0, p.len() as int) == p
}

/// The blanks that end `s` and what comes before them.
proof fn lemma_trailing_split(s: Seq<u8>)
    ensures
        trailing_blanks(s) <= s.len(),
        forall|i: int| s.len() - trailing_blanks(s) <= i < s.len() ==> is_blank(#[trigger] s[i]),
        trailing_blanks(s) < s.len() ==> !is_blank(s[s.len() - trailing_blanks(s) - 1]),
    decreases s.len(),
{
    if s.len() > 0 && is_blank(s.last()) {
        let d = s.drop_last();
        lemma_trailing_split(d);
        assert forall|i: int| s.len() - trailing_blanks(s) <= i < s.len() implies is_blank(#[trigger] s[i]) by {
            if i < s.len() - 1 {
                assert(s[i] == d[i]);
            }
        }
        if trailing_blanks(s) < s.len() {
            assert(s[s.len() - trailing_blanks(s) - 1] == d[d.len() - trailing_blanks(d) - 1]);
        }
    }
}

/// Blanks appended to `s` join its trailing blanks.
proof fn lemma_append_blanks(s: Seq<u8>, t: Seq<u8>)
    requires
        forall|i: int| 0 <= i < t.len() ==> is_blank(#[trigger] t[i]),
    ensures
        trailing_blanks(s + t) == trailing_blanks(s) + t.len(),
        trim_end(s + t) == trim_end(s),
    decreases t.len(),
{
    if t.len() > 0 {
        lemma_append_blanks(s, t.drop_last());
        assert((s + t).drop_last() =~= s + t.drop_last());
        assert((s + t).last() == t.last());
    } else {
        assert(s + t =~= s);
    }
    lemma_trailing_le_len(s);
    assert(trim_end(s + t) =~= trim_end(s));
}

/// Bytes that end in a non-blank leave no trailing blank.
proof fn lemma_nonblank_end(s: Seq<u8>, t: Seq<u8>)
    requires
        t.len() > 0,
        !is_blank(t.last()),
    ensures
        trailing_blanks(s + t) == 0,
        trim_end(s + t) == s + t,
{
    assert((s + t).last() == t.last());
    assert((s + t).subrange(0, (s + t).len() as int) =~= s + t);
}

/// Trimming leaves no trailing blank, keeps a valid encoding valid, and
/// changes nothing where there is nothing to trim.
proof fn lemma_trim_end(s: Seq<u8>)
    ensures
        trailing_blanks(trim_end(s)) == 0,
        trim_end(s).len() == s.len() - trailing_blanks(s),
        valid_utf8(s) ==> valid_utf8(trim_end(s)),
        trailing_blanks(s) == 0 ==> trim_end(s) == s,
    decreases s.len(),
{
    lemma_trailing_split(s);
    let t = trim_end(s);
    if t.len() > 0 {
        assert(t.last() == s[s.len() - trailing_blanks(s) - 1]);
    }
    if trailing_blanks(s) == 0 {
        assert(t =~= s);
    } else {
        let d = s.drop_last();
        lemma_trim_end(d);
        assert(trim_end(s) =~= trim_end(d));
        if valid_utf8(s) {
            lemma_valid_drop_last_ascii(s);
        }
    }
}

proof fn lemma_prefix_extend(w: Seq<u8>, b: Seq<u8>, e: Seq<u8>)
    ensures
        is_prefix_of(w + b, e) ==> is_prefix_of(w, e),
        is_prefix_of(w, e) ==> (is_prefix_of(w + b, e) == (w.len() + b.len() <= e.len() && e.subrange(
            w.len() as int,
            (w.len() + b.len()) as int,
        ) == b)),
{
    if is_prefix_of(w + b, e) {
        assert(e.subrange(0, w.len() as int) =~= (w + b).subrange(0, w.len() as int));
        assert((w + b).subrange(0, w.len() as int) =~= w);
    }
    if is_prefix_of(w, e) {
        if w.len() + b.len() <= e.len() {
            if e.subrange(w.len() as int, (w.len() + b.len()) as int) == b {
                assert(e.subrange(0, (w + b).len() as int) =~= w + b) by {
                    assert forall|i: int| 0 <= i < (w + b).len() implies e.subrange(0, (w + b).len() as int)[i] == (w
                        + b)[i] by {
                        if i < w.len() {
                            assert(e.subrange(0, w.len() as int)[i] == e[i]);
                        } else {
                            assert(e.subrange(w.len() as int, (w.len() + b.len()) as int)[i - w.len()] == e[i]);
                        }
                    }
                }
            }
            if is_prefix_of(w + b, e) {
                assert(e.subrange(w.len() as int, (w.len() + b.len()) as int) =~= b) by {
                    assert forall|i: int| 0 <= i < b.len() implies e.subrange(w.len() as int, (w.len() + b.len()) as int)[i]
                        == b[i] by {
                        assert(e.subrange(0, (w + b).len() as int)[w.len() + i] == (w + b)[w.len() + i]);
                    }
                }
            }
        }
    }
}

// ---------------------------------------------------------------------------
// Where the printer writes.

/// A sink for printed bytes.
trait Output {
    /// The bytes written so far.
    spec fn produced(&self) -> Seq<u8>;

    /// The sink's own invariant.
    spec fn inv(&self) -> bool;

    /// What the sink holds the output against; writes leave it alone.
    spec fn reference(&self) -> Seq<u8>;

    fn write_bytes(&mut self, bytes: &[u8])
        requires
            old(self).inv(),
        ensures
            final(self).inv(),
            final(self).produced() == old(self).produced() + bytes@,
            final(self).reference() == old(self).reference(),
    ;

    fn write_spaces(&mut self, count: usize)
        requires
            old(self).inv(),
        ensures
            final(self).inv(),
            final(self).produced() == old(self).produced() + spaces(count as nat),
            final(self).reference() == old(self).reference(),
    ;

    /// Removes the spaces and tabs that end the output; returns how many.
    fn trim_trailing(&mut self) -> (removed: usize)
        requires
            old(self).inv(),
        ensures
            final(self).inv(),
            final(self).produced() == trim_end(old(self).produced()),
            removed == min_usize(trailing_blanks(old(self).produced())),
            final(self).reference() == old(self).reference(),
    ;
}

impl Output for Vec<u8> {
    spec fn produced(&self) -> Seq<u8> {
        self@
    }

    spec fn inv(&self) -> bool {
        true
    }

    spec fn reference(&self) -> Seq<u8> {
        Seq::empty()
    }

    fn write_bytes(&mut self, bytes: &[u8]) {
        let ghost initial = self@;
        let mut k: usize = 0;
        while k < bytes.len()
            invariant
                k <= bytes@.len(),
                self@ == initial + bytes@.subrange(0, k as int),
            decreases bytes.len() - k,
        {
            self.push(bytes[k]);
            k = k + 1;
            proof {
                assert(self@ =~= initial + bytes@.subrange(0, k as int));
            }
        }
        proof {
            assert(bytes@.subrange(0, bytes@.len() as int) =~= bytes@);
        }
    }

    fn write_spaces(&mut self, count: usize) {
        let ghost initial = self@;
        let mut k: usize = 0;
        while k < count
            invariant
                k <= count,
                self@ == initial + spaces(k as nat),
            decreases count - k,
        {
            self.push(32u8);
            k = k + 1;
            proof {
                assert(self@ =~= initial + spaces(k as nat));
            }
        }
    }

    fn trim_trailing(&mut self) -> (removed: usize) {
        let ghost initial = self@;
        let removed: usize = trailing_blank_count(self.as_slice());
        proof {
            lemma_trailing_le_len(initial);
        }
        let keep: usize = self.len() - removed;
        self.truncate(keep);
        removed
    }
}

/// Whether `expected[at..at + bytes.len()]` is `bytes`.
fn region_equals(expected: &[u8], at: usize, bytes: &[u8]) -> (same: bool)
    requires
        at + bytes@.len() <= expected@.len(),
    ensures
        same == (expected@.subrange(at as int, at + bytes@.len()) == bytes@),
{
    let total: usize = expected.len();
    let mut k: usize = 0;
    while k < bytes.len()
        invariant
            total == expected@.len(),
            at + bytes@.len() <= expected@.len(),
            k <= bytes@.len(),
            forall|j: int| 0 <= j < k ==> #[trigger] bytes@[j] == expected@[at + j],
        decreases bytes.len() - k,
    {
        if expected[at + k] != bytes[k] {
            proof {
                assert(expected@.subrange(at as int, at + bytes@.len())[k as int] != bytes@[k as int]);
            }
            return false;
        }
        k = k + 1;
    }
    proof {
        assert(expected@.subrange(at as int, at + bytes@.len()) =~= bytes@);
    }
    true
}

/// Whether `expected[at..at + count]` holds only spaces.
fn region_spaces(expected: &[u8], at: usize, count: usize) -> (same: bool)
    requires
        at + count <= expected@.len(),
    ensures
        same == (expected@.subrange(at as int, at + count) == spaces(count as nat)),
{
    let total: usize = expected.len();
    let mut k: usize = 0;
    while k < count
        invariant
            total == expected@.len(),
            at + count <= expected@.len(),
            k <= count,
            forall|j: int| at <= j < at + k ==> #[trigger] expected@[j] == 32u8,
        decreases count - k,
    {
        if expected[at + k] != 32u8 {
            proof {
                assert(expected@.subrange(at as int, at + count)[k as int] != spaces(count as nat)[k as int]);
            }
            return false;
        }
        k = k + 1;
    }
    proof {
        assert(expected@.subrange(at as int, at + count) =~= spaces(count as nat));
    }
    true
}

/// Compares what the printer writes with the expected bytes as it goes,
/// keeping what is needed to take trailing blanks back.
struct MatchOutput<'a> {
    expected: &'a [u8],
    cursor: usize,
    matching: bool,
    trailing_cursor: usize,
    trailing_matching: bool,
    trailing_len: usize,
    written: Ghost<Seq<u8>>,
}

impl<'a> MatchOutput<'a> {
    spec fn consistent(&self) -> bool {
        let p = self.written@;
        &&& self.cursor == min_usize(p.len())
        &&& self.matching == is_prefix_of(p, self.expected@)
        &&& self.trailing_len == min_usize(trailing_blanks(p))
        &&& self.trailing_len > 0 ==> {
            &&& self.trailing_cursor == min_usize((p.len() - trailing_blanks(p)) as nat)
            &&& self.trailing_matching == is_prefix_of(trim_end(p), self.expected@)
        }
    }

    fn new(expected: &'a [u8]) -> (out: Self)
        ensures
            out.consistent(),
            out.written@ == Seq::<u8>::empty(),
            out.expected@ == expected@,
    {
        let out = MatchOutput {
            expected,
            cursor: 0,
            matching: true,
            trailing_cursor: 0,
            trailing_matching: true,
            trailing_len: 0,
            written: Ghost(Seq::empty()),
        };
        proof {
            assert(expected@.subrange(0, 0) =~= Seq::<u8>::empty());
        }
        out
    }

    /// Compares the next bytes written.
    fn compare(&mut self, bytes: &[u8])
        requires
            old(self).cursor == min_usize(old(self).written@.len()),
            old(self).matching == is_prefix_of(old(self).written@, old(self).expected@),
        ensures
            final(self).written@ == old(self).written@ + bytes@,
            final(self).cursor == min_usize(final(self).written@.len()),
            final(self).matching == is_prefix_of(final(self).written@, final(self).expected@),
            final(self).expected == old(self).expected,
            final(self).trailing_cursor == old(self).trailing_cursor,
            final(self).trailing_matching == old(self).trailing_matching,
            final(self).trailing_len == old(self).trailing_len,
    {
        let ghost w = self.written@;
        let room: usize = self.expected.len().saturating_sub(self.cursor);
        let available: usize = if room < bytes.len() {
            room
        } else {
            bytes.len()
        };
        let same: bool = available == bytes.len() && (bytes.len() == 0 || region_equals(
            self.expected,
            self.cursor,
            bytes,
        ));
        proof {
            lemma_prefix_extend(w, bytes@, self.expected@);
            if bytes@.len() == 0 {
                assert(w + bytes@ =~= w);
                if w.len() <= self.expected@.len() {
                    assert(self.expected@.subrange(w.len() as int, w.len() as int) =~= bytes@);
                }
            }
        }
        self.matching = self.matching && same;
        self.cursor = self.cursor.saturating_add(bytes.len());
        self.written = Ghost(w + bytes@);
    }

    /// Remembers where trailing blanks start, unless they already started.
    fn begin_trailing(&mut self)
        requires
            old(self).consistent(),
        ensures
            final(self).consistent(),
            final(self).written == old(self).written,
            final(self).expected == old(self).expected,
            final(self).cursor == old(self).cursor,
            final(self).matching == old(self).matching,
            final(self).trailing_len == old(self).trailing_len,
            old(self).trailing_len == 0 ==> final(self).trailing_cursor == old(self).cursor
                && final(self).trailing_matching == old(self).matching,
            old(self).trailing_len > 0 ==> final(self).trailing_cursor == old(self).trailing_cursor
                && final(self).trailing_matching == old(self).trailing_matching,
    {
        if self.trailing_len == 0 {
            self.trailing_cursor = self.cursor;
            self.trailing_matching = self.matching;
        }
    }

    /// Whether everything written is exactly the expected bytes.
    fn is_match(self) -> (same: bool)
        requires
            self.consistent(),
        ensures
            same == (self.written@ == self.expected@),
    {
        let total: usize = self.expected.len();
        proof {
            assert(self.expected@.subrange(0, self.expected@.len() as int) =~= self.expected@);
        }
        self.matching && self.cursor == total
    }
}

impl<'a> Output for MatchOutput<'a> {
    spec fn produced(&self) -> Seq<u8> {
        self.written@
    }

    spec fn inv(&self) -> bool {
        self.consistent()
    }

    spec fn reference(&self) -> Seq<u8> {
        self.expected@
    }

    fn write_bytes(&mut self, bytes: &[u8]) {
        let ghost p0 = self.written@;
        let blanks: usize = trailing_blank_count(bytes);
        proof {
            lemma_trailing_split(bytes@);
        }
        let prefix_len: usize = bytes.len() - blanks;
        let prefix: &[u8] = vstd::slice::slice_subrange(bytes, 0, prefix_len);
        let suffix: &[u8] = vstd::slice::slice_subrange(bytes, prefix_len, bytes.len());
        proof {
            assert(prefix@ + suffix@ =~= bytes@);
        }
        if prefix_len > 0 {
            self.compare(prefix);
            self.trailing_len = 0;
            proof {
                assert(prefix@.last() == bytes@[prefix_len - 1]);
                lemma_nonblank_end(p0, prefix@);
            }
        } else {
            proof {
                assert(p0 + prefix@ =~= p0);
            }
        }
        let ghost p1 = self.written@;
        assert(p1 == p0 + prefix@);
        if prefix_len < bytes.len() {
            self.begin_trailing();
            self.compare(suffix);
            proof {
                assert forall|i: int| 0 <= i < suffix@.len() implies is_blank(#[trigger] suffix@[i]) by {
                    assert(suffix@[i] == bytes@[prefix_len + i]);
                }
                lemma_append_blanks(p1, suffix@);
                lemma_trailing_le_len(p1);
                lemma_trim_end(p1);
            }
            self.trailing_len = self.trailing_len.saturating_add(bytes.len() - prefix_len);
        } else {
            proof {
                assert(p1 + suffix@ =~= p1);
            }
        }
        proof {
            assert(self.written@ =~= p0 + bytes@);
        }
    }

    fn write_spaces(&mut self, count: usize) {
        let ghost p0 = self.written@;
        if count == 0 {
            proof {
                assert(p0 + spaces(0) =~= p0);
            }
            return;
        }
        self.begin_trailing();
        let room: usize = self.expected.len().saturating_sub(self.cursor);
        let available: usize = if room < count {
            room
        } else {
            count
        };
        let same: bool = available == count && region_spaces(self.expected, self.cursor, count);
        proof {
            lemma_prefix_extend(p0, spaces(count as nat), self.expected@);
            assert forall|i: int| 0 <= i < spaces(count as nat).len() implies is_blank(#[trigger] spaces(count as nat)[i]) by {}
            lemma_append_blanks(p0, spaces(count as nat));
            lemma_trailing_le_len(p0);
            lemma_trim_end(p0);
        }
        self.matching = self.matching && same;
        self.cursor = self.cursor.saturating_add(count);
        self.trailing_len = self.trailing_len.saturating_add(count);
        self.written = Ghost(p0 + spaces(count as nat));
    }

    fn trim_trailing(&mut self) -> (removed: usize) {
        let ghost p = self.written@;
        proof {
            lemma_trim_end(p);
            lemma_trailing_le_len(p);
        }
        let removed: usize = self.trailing_len;
        if removed > 0 {
            self.cursor = self.trailing_cursor;
            self.matching = self.trailing_matching;
            self.trailing_len = 0;
        }
        self.written = Ghost(trim_end(p));
        removed
    }
}


// ---------------------------------------------------------------------------
// Flushing line suffixes.

/// Inserting at the first entry that `x` is pushed before.
proof fn lemma_insert_at(s: Seq<Suffix>, x: Suffix, i: int)
    requires
        0 <= i <= s.len(),
        forall|j: int| 0 <= j < i ==> !suffix_before(x, #[trigger] s[j]),
        i < s.len() ==> suffix_before(x, s[i]),
    ensures
        insert_suffix(s, x) == s.insert(i, x),
    decreases s.len(),
{
    if s.len() == 0 {
        assert(s.insert(0, x) =~= seq![x]);
    } else if i == 0 {
        assert(s.insert(0, x) =~= seq![x] + s);
    } else {
        assert(!suffix_before(x, s[0]));
        let d = s.drop_first();
        assert forall|j: int| 0 <= j < i - 1 implies !suffix_before(x, #[trigger] d[j]) by {
            assert(d[j] == s[j + 1]);
        }
        if i < s.len() {
            assert(d[i - 1] == s[i]);
        }
        lemma_insert_at(d, x, i - 1);
        assert(s.insert(i, x) =~= seq![s[0]] + d.insert(i - 1, x));
    }
}

/// Whether suffix `a` prints before `b`.
fn prints_before(a: &Suffix, b: &Suffix) -> (before: bool)
    ensures
        before == suffix_before(*a, *b),
{
    a.priority > b.priority || (a.priority == b.priority && a.order > b.order)
}

/// The queued suffixes in the order they are pushed: higher priority first; among
/// equals, the most recently queued first.
fn sorted_suffixes(queue: &Vec<Suffix>) -> (sorted: Vec<Suffix>)
    ensures
        sorted@ == sort_suffixes(queue@),
{
    let mut sorted: Vec<Suffix> = Vec::new();
    let mut k: usize = 0;
    while k < queue.len()
        invariant
            k <= queue@.len(),
            sorted@ == sort_suffixes(queue@.subrange(0, k as int)),
        decreases queue.len() - k,
    {
        let x: Suffix = queue[k];
        let mut i: usize = 0;
        while i < sorted.len() && !prints_before(&x, &sorted[i])
            invariant
                i <= sorted@.len(),
                forall|j: int| 0 <= j < i ==> !suffix_before(x, #[trigger] sorted@[j]),
            decreases sorted.len() - i,
        {
            i = i + 1;
        }
        proof {
            lemma_insert_at(sorted@, x, i as int);
            let q = queue@.subrange(0, k + 1);
            assert(q.drop_last() =~= queue@.subrange(0, k as int));
            assert(q.last() == x);
        }
        sorted.insert(i, x);
        k = k + 1;
    }
    proof {
        assert(queue@.subrange(0, queue@.len() as int) =~= queue@);
    }
    sorted
}

/// Moves the queued suffixes onto the command stack in sorted order, so
/// the last pushed, lowest in that order, prints first.
fn flush_suffixes(commands: &mut Vec<Command>, document: &Document, suffixes: &mut Vec<Suffix>)
    requires
        document@.wf(),
        suffixes_ok(document@, old(suffixes)@),
    ensures
        final(commands)@ == push_suffixes(old(commands)@, document@, sort_suffixes(old(suffixes)@)),
        final(suffixes)@ == Seq::<Suffix>::empty(),
{
    let ghost m = document@;
    let sorted: Vec<Suffix> = sorted_suffixes(suffixes);
    proof {
        lemma_sort_suffixes(m, suffixes@);
    }
    suffixes.clear();
    let ghost target = push_suffixes(commands@, m, sorted@);
    let mut i: usize = 0;
    proof {
        assert(sorted@.subrange(0, sorted@.len() as int) =~= sorted@);
    }
    while i < sorted.len()
        invariant
            m == document@,
            m.wf(),
            suffixes_ok(m, sorted@),
            i <= sorted@.len(),
            push_suffixes(commands@, m, sorted@.subrange(i as int, sorted@.len() as int)) == target,
        decreases sorted.len() - i,
    {
        let x: Suffix = sorted[i];
        proof {
            let rest = sorted@.subrange(i as int, sorted@.len() as int);
            assert(rest[0] == x);
            assert(rest.drop_first() =~= sorted@.subrange(i + 1, sorted@.len() as int));
            assert(fragment_in(m.children, sorted@[i as int].contents, m.docs.len() as int));
        }
        push_all(commands, document, x.contents, x.indent, x.mode);
        i = i + 1;
    }
    proof {
        assert(sorted@.subrange(sorted@.len() as int, sorted@.len() as int) =~= Seq::<Suffix>::empty());
    }
}


// ---------------------------------------------------------------------------
// The printer.

/// Once the stack is empty, further steps change nothing.
proof fn lemma_render_steps_stable(m: DocModel, source: Seq<u8>, o: PrintOptions, st: RenderState, n1: nat, n2: nat)
    requires
        n1 <= n2,
        render_steps(m, source, o, st, n1).cmds.len() == 0,
    ensures
        render_steps(m, source, o, st, n2) == render_steps(m, source, o, st, n1),
    decreases n2,
{
    if n2 > n1 {
        lemma_render_steps_stable(m, source, o, st, n1, (n2 - 1) as nat);
    }
}

/// The printed bytes are those of the first state with an empty stack.
proof fn lemma_rendered(m: DocModel, source: Seq<u8>, o: PrintOptions, k: nat)
    requires
        render_steps(m, source, o, render_start(m), k).cmds.len() == 0,
    ensures
        rendered(m, source, o) == render_steps(m, source, o, render_start(m), k).out,
{
    let start = render_start(m);
    let n = choose|n: nat| (#[trigger] render_steps(m, source, o, start, n)).cmds.len() == 0;
    assert(render_steps(m, source, o, start, k).cmds.len() == 0);
    if n <= k {
        lemma_render_steps_stable(m, source, o, start, n, k);
    } else {
        lemma_render_steps_stable(m, source, o, start, k, n);
    }
}

/// Runs the printer over `document`, writing to `out`.
#[verifier::rlimit(50)]
fn render<T: Output>(document: &Document, source: &[u8], options: PrintOptions, out: T) -> (result: T)
    requires
        document@.wf(),
        options.valid(),
        sources_fit(document@, source@),
        out.inv(),
        out.produced() == Seq::<u8>::empty(),
    ensures
        result.inv(),
        result.reference() == out.reference(),
        result.produced() == rendered(document@, source@, options),
        valid_utf8(result.produced()),
{
    let ghost m = document@;
    let ghost initial_reference = out.reference();
    let mut out = out;
    let mut position: usize = 0;
    let mut commands: Vec<Command> = Vec::new();
    push_all(&mut commands, document, document.root(), 0, Mode::Break);
    let mut remeasure: bool = false;
    let mut suffixes: Vec<Suffix> = Vec::new();
    let mut suffix_order: usize = 0;
    let mut fit_commands: Vec<Command> = Vec::new();
    let ghost mut k: nat = 0;
    proof {
        assert(commands_ok(m, Seq::<Command>::empty()));
        lemma_pushed_weight(m, Seq::empty(), m.root, 0, Mode::Break);
        assert(suffixes_ok(m, Seq::<Suffix>::empty()));
        lemma_ascii_valid(Seq::<u8>::empty());
    }
    while commands.len() > 0
        invariant
            m == document@,
            m.wf(),
            options.valid(),
            sources_fit(m, source@),
            out.inv(),
            out.reference() == initial_reference,
            valid_utf8(out.produced()),
            render_steps(m, source@, options, render_start(m), k) == (RenderState {
                cmds: commands@,
                out: out.produced(),
                position,
                remeasure,
                suffixes: suffixes@,
                order: suffix_order,
            }),
            render_state_ok(
                m,
                RenderState {
                    cmds: commands@,
                    out: out.produced(),
                    position,
                    remeasure,
                    suffixes: suffixes@,
                    order: suffix_order,
                },
            ),
        decreases render_measure(
            m,
            RenderState {
                cmds: commands@,
                out: out.produced(),
                position,
                remeasure,
                suffixes: suffixes@,
                order: suffix_order,
            },
        ),
    {
        let ghost st = RenderState {
            cmds: commands@,
            out: out.produced(),
            position,
            remeasure,
            suffixes: suffixes@,
            order: suffix_order,
        };
        let ghost before = out.produced();
        proof {
            lemma_render_step(m, source@, options, st);
            lemma_cmds_pop(m, commands@);
        }
        let c: Command = commands.pop().unwrap();
        proof {
            assert(c == st.cmds.last());
            assert(commands@ == st.cmds.drop_last());
            lemma_container(m, c.id as int);
            assert(node_ok(m.docs, m.children, m.text, c.id as int));
        }
        match document.node(c.id) {
            Doc::Text(span) => {
                let bytes: &[u8] = document.text_bytes(span);
                out.write_bytes(bytes);
                let width: usize = text_width(bytes);
                position = position.saturating_add(width);
                proof {
                    lemma_valid_concat(before, bytes@);
                }
            },
            Doc::Source(span) => {
                proof {
                    assert(match m.docs[c.id as int] {
                        Doc::Source(s) => s.start <= s.end <= source@.len() && valid_utf8(
                            source@.subrange(s.start as int, s.end as int),
                        ),
                        _ => true,
                    });
                }
                let bytes: &[u8] = vstd::slice::slice_subrange(source, span.start as usize, span.end as usize);
                out.write_bytes(bytes);
                let width: usize = text_width(bytes);
                position = position.saturating_add(width);
                proof {
                    lemma_valid_concat(before, bytes@);
                }
            },
            Doc::Group(g) => {
                if c.mode == Mode::Flat && !remeasure {
                    let next: Mode = if g.broken {
                        Mode::Break
                    } else {
                        Mode::Flat
                    };
                    push_all(&mut commands, document, g.contents, c.indent, next);
                } else {
                    remeasure = false;
                    if g.broken {
                        push_all(&mut commands, document, g.contents, c.indent, Mode::Break);
                    } else {
                        let flat: bool = fits(
                            document,
                            source,
                            options,
                            g.contents,
                            &commands,
                            c.indent,
                            position,
                            &mut fit_commands,
                        );
                        let mode: Mode = if flat {
                            Mode::Flat
                        } else {
                            Mode::Break
                        };
                        push_all(&mut commands, document, g.contents, c.indent, mode);
                    }
                }
            },
            Doc::Line(line) => {
                if c.mode == Mode::Flat {
                    if line.force {
                        remeasure = true;
                    } else {
                        let width: usize = match line.separator {
                            Separator::Empty => 0,
                            Separator::Space => 1,
                        };
                        out.write_spaces(width);
                        position = position.saturating_add(width);
                        proof {
                            assert(spaces(width as nat) =~= line.separator.bytes());
                            lemma_valid_append_ascii(before, spaces(width as nat));
                            k = k + 1;
                        }
                        continue;
                    }
                }
                if suffixes.len() > 0 {
                    commands.push(c);
                    flush_suffixes(&mut commands, document, &mut suffixes);
                    proof {
                        k = k + 1;
                    }
                    continue;
                }
                if line.indent {
                    out.trim_trailing();
                    let newline: [u8; 1] = [10u8];
                    out.write_bytes(newline.as_slice());
                    let product: usize = match c.indent.checked_mul(options.indent_width) {
                        Some(p) => p,
                        None => usize::MAX,
                    };
                    let count: usize = product / options.fit_indent_width;
                    out.write_spaces(count);
                    position = c.indent;
                    proof {
                        assert(newline@ =~= seq![10u8]);
                        lemma_trim_end(before);
                        lemma_valid_append_ascii(trim_end(before), seq![10u8]);
                        lemma_valid_append_ascii(trim_end(before) + seq![10u8], spaces(count as nat));
                    }
                } else {
                    let newline: [u8; 1] = [10u8];
                    out.write_bytes(newline.as_slice());
                    position = 0;
                    proof {
                        assert(newline@ =~= seq![10u8]);
                        lemma_valid_append_ascii(before, seq![10u8]);
                    }
                }
            },
            Doc::Indent(f) => {
                push_all(&mut commands, document, f, c.indent.saturating_add(options.fit_indent_width), c.mode);
            },
            Doc::Align(units, f) => {
                push_all(&mut commands, document, f, c.indent.saturating_add(units as usize), c.mode);
            },
            Doc::Trim => {
                let removed: usize = out.trim_trailing();
                position = position.saturating_sub(removed);
                proof {
                    lemma_trim_end(before);
                }
            },
            Doc::IfBreak { broken, flat } => {
                if c.mode == Mode::Break {
                    if !broken.is_empty() {
                        push_all(&mut commands, document, broken, c.indent, c.mode);
                    } else {
                        proof {
                            assert(pushed_fragment(commands@, m, broken, c.indent, c.mode) =~= commands@);
                        }
                    }
                } else {
                    if !flat.is_empty() {
                        push_all(&mut commands, document, flat, c.indent, c.mode);
                    } else {
                        proof {
                            assert(pushed_fragment(commands@, m, flat, c.indent, c.mode) =~= commands@);
                        }
                    }
                }
            },
            Doc::LineSuffix { priority, contents } => {
                suffixes.push(Suffix { order: suffix_order, priority, indent: c.indent, mode: c.mode, contents });
                suffix_order = suffix_order.saturating_add(1);
            },
            Doc::BreakParent => {},
        }
        if commands.len() == 0 && suffixes.len() > 0 {
            flush_suffixes(&mut commands, document, &mut suffixes);
        }
        proof {
            k = k + 1;
        }
    }
    proof {
        lemma_rendered(m, source@, options, k);
    }
    out
}

/// `String::from_utf8`: the bytes as a string exactly when they are valid
/// UTF-8; the string holds the characters the bytes encode.
#[verifier::external_body]
pub(crate) fn string_from_utf8(bytes: Vec<u8>) -> (s: Option<String>)
    ensures
        s is Some <==> valid_utf8(bytes@),
        s matches Some(s) ==> s@ == decode_utf8(bytes@),
{
    String::from_utf8(bytes).ok()
}

/// Prints `document`; `Source` nodes print their span of `source`.
pub fn print(document: &Document, source: &str, options: PrintOptions) -> (printed: String)
    requires
        document@.wf(),
        options.valid(),
        sources_fit(document@, source.spec_bytes()),
    ensures
        encode_utf8(printed@) == rendered(document@, source.spec_bytes(), options),
{
    let out: Vec<u8> = Vec::with_capacity(options.output_capacity);
    let bytes: Vec<u8> = render(document, source.as_bytes(), options, out);
    match string_from_utf8(bytes) {
        Some(s) => {
            proof {
                decode_utf8_encode_utf8(bytes@);
            }
            s
        },
        None => {
            proof {
                assert(false);
            }
            String::new()
        },
    }
}

/// Whether printing `document` gives back `source` exactly, without
/// building the printed text.
pub fn matches_source(document: &Document, source: &str, options: PrintOptions) -> (same: bool)
    requires
        document@.wf(),
        options.valid(),
        sources_fit(document@, source.spec_bytes()),
    ensures
        same == (rendered(document@, source.spec_bytes(), options) == source.spec_bytes()),
{
    let expected: &[u8] = source.as_bytes();
    let out: MatchOutput = render(document, expected, options, MatchOutput::new(expected));
    out.is_match()
}


// ---------------------------------------------------------------------------
// The printed text is valid UTF-8, and checking agrees with printing.

/// Every printer step keeps the output valid UTF-8.
proof fn lemma_render_step_valid(m: DocModel, source: Seq<u8>, o: PrintOptions, st: RenderState)
    requires
        m.wf(),
        sources_fit(m, source),
        render_state_ok(m, st),
        valid_utf8(st.out),
        st.cmds.len() > 0,
    ensures
        valid_utf8(render_step(m, source, o, st).out),
{
    let c = st.cmds.last();
    let base = RenderState { cmds: st.cmds.drop_last(), ..st };
    lemma_cmds_pop(m, st.cmds);
    assert(node_ok(m.docs, m.children, m.text, c.id as int));
    match m.docs[c.id as int] {
        Doc::Line(l) => {
            if c.mode == Mode::Flat && !l.force {
                assert(all_ascii(l.separator.bytes()));
                lemma_valid_append_ascii(st.out, l.separator.bytes());
            } else if base.suffixes.len() == 0 {
                lemma_trim_end(st.out);
                assert(all_ascii(seq![10u8]));
                lemma_valid_append_ascii(trim_end(st.out), seq![10u8]);
                assert(all_ascii(spaces(output_indent(c.indent, o))));
                lemma_valid_append_ascii(trim_end(st.out) + seq![10u8], spaces(output_indent(c.indent, o)));
                lemma_valid_append_ascii(st.out, seq![10u8]);
            }
        },
        Doc::Text(s) => {
            lemma_valid_concat(st.out, m.text.subrange(s.start as int, s.end as int));
        },
        Doc::Source(s) => {
            assert(sources_fit(m, source));
            lemma_valid_concat(st.out, source.subrange(s.start as int, s.end as int));
        },
        Doc::Trim => {
            lemma_trim_end(st.out);
        },
        _ => {},
    }
}

/// Every state the printer reaches is valid, and its output valid UTF-8.
proof fn lemma_render_steps_valid(m: DocModel, source: Seq<u8>, o: PrintOptions, n: nat)
    requires
        m.wf(),
        sources_fit(m, source),
    ensures
        render_state_ok(m, render_steps(m, source, o, render_start(m), n)),
        valid_utf8(render_steps(m, source, o, render_start(m), n).out),
    decreases n,
{
    if n == 0 {
        assert(commands_ok(m, Seq::<Command>::empty()));
        lemma_pushed_weight(m, Seq::empty(), m.root, 0, Mode::Break);
        assert(suffixes_ok(m, Seq::<Suffix>::empty()));
        lemma_ascii_valid(Seq::<u8>::empty());
    } else {
        lemma_render_steps_valid(m, source, o, (n - 1) as nat);
        let prev = render_steps(m, source, o, render_start(m), (n - 1) as nat);
        if prev.cmds.len() > 0 {
            lemma_render_step(m, source, o, prev);
            lemma_render_step_valid(m, source, o, prev);
        }
    }
}

/// While the stack is not empty, every step lowers the measure.
proof fn lemma_render_measure_drops(m: DocModel, source: Seq<u8>, o: PrintOptions, n: nat)
    requires
        m.wf(),
        sources_fit(m, source),
        forall|i: nat| i < n ==> (#[trigger] render_steps(m, source, o, render_start(m), i)).cmds.len() > 0,
    ensures
        render_measure(m, render_steps(m, source, o, render_start(m), n)) + n <= render_measure(m, render_start(m)),
    decreases n,
{
    if n > 0 {
        let k = (n - 1) as nat;
        assert(render_steps(m, source, o, render_start(m), k).cmds.len() > 0);
        lemma_render_measure_drops(m, source, o, k);
        lemma_render_steps_valid(m, source, o, k);
        lemma_render_step(m, source, o, render_steps(m, source, o, render_start(m), k));
    }
}

/// The printer's stack empties within as many steps as its measure.
proof fn lemma_render_terminates(m: DocModel, source: Seq<u8>, o: PrintOptions) -> (n: nat)
    requires
        m.wf(),
        sources_fit(m, source),
    ensures
        render_steps(m, source, o, render_start(m), n).cmds.len() == 0,
{
    let bound = render_measure(m, render_start(m)) + 1;
    if forall|i: nat| i < bound ==> (#[trigger] render_steps(m, source, o, render_start(m), i)).cmds.len() > 0 {
        lemma_render_measure_drops(m, source, o, bound);
        assert(false);
        0
    } else {
        choose|i: nat| i < bound && (#[trigger] render_steps(m, source, o, render_start(m), i)).cmds.len() == 0
    }
}

/// What a document prints as is valid UTF-8.
pub proof fn lemma_rendered_valid(m: DocModel, source: Seq<u8>, o: PrintOptions)
    requires
        m.wf(),
        sources_fit(m, source),
    ensures
        valid_utf8(rendered(m, source, o)),
{
    let n = lemma_render_terminates(m, source, o);
    lemma_rendered(m, source, o, n);
    lemma_render_steps_valid(m, source, o, n);
}

/// Checking a source against a document agrees with printing the document
/// and comparing: the check succeeds exactly when the printed text is the
/// source.
pub proof fn law_check_agrees_with_print(m: DocModel, source: Seq<char>, o: PrintOptions)
    requires
        m.wf(),
        sources_fit(m, encode_utf8(source)),
    ensures
        (rendered(m, encode_utf8(source), o) == encode_utf8(source)) == (decode_utf8(
            rendered(m, encode_utf8(source), o),
        ) == source),
{
    let r = rendered(m, encode_utf8(source), o);
    lemma_rendered_valid(m, encode_utf8(source), o);
    decode_utf8_encode_utf8(r);
    vstd::utf8::encode_utf8_decode_utf8(source);
}


/// Trimming leaves no space or tab at the end.
proof fn lemma_trim_end_trimmed(s: Seq<u8>)
    ensures
        trailing_blanks(trim_end(s)) == 0,
    decreases s.len(),
{
    if s.len() > 0 && is_blank(s.last()) {
        lemma_trim_end_trimmed(s.drop_last());
        lemma_trailing_le_len(s.drop_last());
        assert(trim_end(s) =~= trim_end(s.drop_last()));
    } else {
        assert(trim_end(s) =~= s);
    }
}

/// A group that is not marked broken, met in break mode or after a broken
/// line, prints flat exactly when its flat form, with what follows it up to
/// the next possible line break, fits in the line width.
pub proof fn law_group_flat_exactly_when_it_fits(m: DocModel, source: Seq<u8>, o: PrintOptions, st: RenderState, g: crate::doc::Group)
    requires
        st.cmds.len() > 0,
        m.docs[st.cmds.last().id as int] == Doc::Group(g),
        !g.broken,
        st.cmds.last().mode == Mode::Break || st.remeasure,
    ensures
        ({
            let c = st.cmds.last();
            let base = RenderState { cmds: st.cmds.drop_last(), ..st };
            render_other(m, source, o, base, c).cmds == pushed_fragment(
                base.cmds,
                m,
                g.contents,
                c.indent,
                if fits_spec(m, source, o, g.contents, base.cmds, c.indent, base.position) {
                    Mode::Flat
                } else {
                    Mode::Break
                },
            )
        }),
{
}

/// Breaking an indenting line leaves no space or tab before the line feed:
/// the output so far loses its trailing spaces and tabs first, and the new
/// line starts with the indentation.
pub proof fn law_no_blank_before_an_indented_break(m: DocModel, source: Seq<u8>, o: PrintOptions, st: RenderState)
    requires
        st.cmds.len() > 0,
        m.docs[st.cmds.last().id as int] matches Doc::Line(l) && l.indent && (l.force || st.cmds.last().mode
            == Mode::Break),
        st.suffixes.len() == 0,
    ensures
        render_step(m, source, o, st).out == trim_end(st.out) + seq![10u8] + spaces(
            output_indent(st.cmds.last().indent, o),
        ),
        trailing_blanks(trim_end(st.out)) == 0,
{
    lemma_trim_end_trimmed(st.out);
}

} // verus!
