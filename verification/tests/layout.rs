use rubyfmt::file_comments::FileComments;
use rubyfmt::format_prism::{
    block_body_renders_multiline, call_chain_should_be_multilined, heredoc_common_indent,
    strip_heredoc_indent, string_part_common_indent, element_forces_chain_to_multiline,
    extract_trailing_arefs, is_def_modifier_node, is_empty_parentheses_node, is_gemfile_method,
    is_keyword_expression, is_multilinable_node, non_null_positions, is_optionally_parenthesized_method, is_rspec_method,
    split_node_into_call_chains, start_loc_for_call_node_in_chain, unwrap_single_arg_paren,
    use_parens_for_call_node, when_conditions_end_with_endless_range,
};
use rubyfmt::heredoc_string::HeredocKind;
use rubyfmt::parser_state::{FormattingContext, ParserState};
use rubyfmt::syntax_node::{CallNode, ParametersNode, SyntaxKind, SyntaxNode};

fn node(kind: SyntaxKind, start: usize, end: usize) -> SyntaxNode {
    SyntaxNode { kind, start_offset: start, end_offset: end }
}

fn other() -> SyntaxNode {
    node(SyntaxKind::Other, 0, 0)
}

fn statements(body: Vec<SyntaxNode>) -> SyntaxNode {
    node(SyntaxKind::Statements { body }, 0, 0)
}

fn parens(body: Option<SyntaxNode>) -> SyntaxNode {
    node(SyntaxKind::Parentheses { body: body.map(Box::new) }, 0, 0)
}

fn plain_call(name: &str) -> CallNode {
    CallNode {
        name: name.as_bytes().to_vec(),
        receiver: None,
        arguments: None,
        block: None,
        has_opening: false,
        call_operator_start: None,
        message_start: Some(0),
    }
}

fn call_node(c: CallNode, start: usize, end: usize) -> SyntaxNode {
    node(SyntaxKind::Call(Box::new(c)), start, end)
}

fn block(opening: &str, body: Option<SyntaxNode>) -> SyntaxNode {
    node(SyntaxKind::Block { opening: opening.as_bytes().to_vec(), body: body.map(Box::new) }, 0, 0)
}

fn empty_state() -> ParserState {
    ParserState::new(FileComments::default())
}

fn state_for(source: &[u8], lines: u64) -> ParserState {
    ParserState::new(FileComments::from_prism_comments(vec![], source, lines))
}

#[test]
fn empty_parentheses_stand_for_no_arguments() {
    assert!(is_empty_parentheses_node(&parens(None)));
    assert!(is_empty_parentheses_node(&parens(Some(statements(vec![])))));
    assert!(!is_empty_parentheses_node(&parens(Some(statements(vec![other()])))));
    assert!(!is_empty_parentheses_node(&parens(Some(other()))));
    assert!(!is_empty_parentheses_node(&other()));
}

#[test]
fn keyword_expressions_keep_their_parentheses() {
    assert!(is_keyword_expression(&node(SyntaxKind::If { has_keyword: true }, 0, 0)));
    assert!(!is_keyword_expression(&node(SyntaxKind::If { has_keyword: false }, 0, 0)));
    assert!(is_keyword_expression(&node(SyntaxKind::And { operator: b"and".to_vec() }, 0, 0)));
    assert!(!is_keyword_expression(&node(SyntaxKind::And { operator: b"&&".to_vec() }, 0, 0)));
    assert!(is_keyword_expression(&node(SyntaxKind::Or { operator: b"or".to_vec() }, 0, 0)));
    assert!(!is_keyword_expression(&node(SyntaxKind::Or { operator: b"||".to_vec() }, 0, 0)));
    assert!(is_keyword_expression(&node(SyntaxKind::RescueModifier, 0, 0)));
    assert!(is_keyword_expression(&node(SyntaxKind::LocalVariableWrite, 0, 0)));
    assert!(!is_keyword_expression(&other()));
}

#[test]
fn single_argument_parentheses_unwrap_to_the_innermost_expression() {
    let inner = node(SyntaxKind::LocalVariableRead, 3, 4);
    let nested = parens(Some(statements(vec![parens(Some(statements(vec![inner])))])));
    let got = unwrap_single_arg_paren(&nested).unwrap();
    assert!(matches!(got.kind, SyntaxKind::LocalVariableRead));
    assert_eq!(got.start_offset, 3);

    let modifier_if = parens(Some(statements(vec![node(SyntaxKind::If { has_keyword: true }, 0, 0)])));
    assert!(unwrap_single_arg_paren(&modifier_if).is_none());
    let two = parens(Some(statements(vec![other(), other()])));
    assert!(unwrap_single_arg_paren(&two).is_none());
    assert!(unwrap_single_arg_paren(&parens(None)).is_none());
    assert!(unwrap_single_arg_paren(&other()).is_none());
}

#[test]
fn multilinable_nodes() {
    assert!(is_multilinable_node(&node(SyntaxKind::Case, 0, 0)));
    assert!(is_multilinable_node(&node(SyntaxKind::While { has_closing: true }, 0, 0)));
    assert!(!is_multilinable_node(&node(SyntaxKind::While { has_closing: false }, 0, 0)));
    assert!(!is_multilinable_node(&node(SyntaxKind::If { has_keyword: false }, 0, 0)));
    assert!(is_multilinable_node(&node(SyntaxKind::Def, 0, 0)));
    assert!(!is_multilinable_node(&node(SyntaxKind::LocalVariableWrite, 0, 0)));
}

#[test]
fn def_modifiers_nest() {
    let def = node(SyntaxKind::Def, 0, 0);
    let mut public = plain_call("public");
    public.arguments = Some(vec![def]);
    let mut cached = plain_call("cached");
    cached.arguments = Some(vec![call_node(public, 0, 0)]);
    assert!(is_def_modifier_node(&call_node(cached, 0, 0)));

    let mut two = plain_call("private");
    two.arguments = Some(vec![node(SyntaxKind::Def, 0, 0), other()]);
    assert!(!is_def_modifier_node(&call_node(two, 0, 0)));

    let mut with_receiver = plain_call("public");
    with_receiver.receiver = Some(node(SyntaxKind::SelfNode, 0, 0));
    with_receiver.arguments = Some(vec![node(SyntaxKind::Def, 0, 0)]);
    assert!(!is_def_modifier_node(&call_node(with_receiver, 0, 0)));
}

#[test]
fn when_with_endless_range() {
    let endless = node(SyntaxKind::Range { has_right: false }, 0, 0);
    let closed = node(SyntaxKind::Range { has_right: true }, 0, 0);
    assert!(when_conditions_end_with_endless_range(&[other(), endless]));
    assert!(!when_conditions_end_with_endless_range(&[closed]));
    assert!(!when_conditions_end_with_endless_range(&[]));
}

#[test]
fn method_lists() {
    assert!(is_rspec_method(b"it"));
    assert!(is_rspec_method(b"describe"));
    assert!(!is_rspec_method(b"context"));
    assert!(is_gemfile_method(b"gem"));
    assert!(is_gemfile_method(b"group"));
    assert!(!is_gemfile_method(b"gems"));
    assert!(is_optionally_parenthesized_method(b"require_relative"));
    assert!(is_optionally_parenthesized_method(b"super"));
    assert!(!is_optionally_parenthesized_method(b"requires"));
}

#[test]
fn parens_around_call_arguments() {
    let ps = empty_state();
    let main = FormattingContext::Main;

    // `foo(&blk)`: no empty `()` before a lone block argument.
    let mut c = plain_call("foo");
    c.block = Some(node(SyntaxKind::BlockArgument, 0, 0));
    assert!(!use_parens_for_call_node(&ps, &c, b"foo", true, main));

    // `Foo()` stays a call; `Foo { }` needs no parentheses.
    let c = plain_call("Foo");
    assert!(use_parens_for_call_node(&ps, &c, b"Foo", true, main));
    let mut c = plain_call("Foo");
    c.block = Some(block("{", None));
    assert!(!use_parens_for_call_node(&ps, &c, b"Foo", true, main));

    // `attr_reader` in a class body keeps what was written.
    let mut c = plain_call("attr_reader");
    c.arguments = Some(vec![other()]);
    assert!(!use_parens_for_call_node(&ps, &c, b"attr_reader", true, FormattingContext::ClassOrModule));
    c.has_opening = true;
    assert!(use_parens_for_call_node(&ps, &c, b"attr_reader", true, FormattingContext::ClassOrModule));

    // `raise Foo` has none; `raise(*args)` gets them.
    let mut c = plain_call("raise");
    c.arguments = Some(vec![other()]);
    assert!(!use_parens_for_call_node(&ps, &c, b"raise", true, main));
    c.arguments = Some(vec![node(SyntaxKind::Splat, 0, 0)]);
    assert!(use_parens_for_call_node(&ps, &c, b"raise", true, main));

    // `require "x"` keeps what was written.
    let mut c = plain_call("require");
    c.arguments = Some(vec![other()]);
    assert!(!use_parens_for_call_node(&ps, &c, b"require", true, main));

    // `foo 1` gets them; `foo` and `foo ()` do not.
    let mut c = plain_call("foo");
    c.arguments = Some(vec![other()]);
    assert!(use_parens_for_call_node(&ps, &c, b"foo", true, main));
    let c = plain_call("foo");
    assert!(!use_parens_for_call_node(&ps, &c, b"foo", true, main));
    let mut c = plain_call("foo");
    c.arguments = Some(vec![parens(None)]);
    assert!(!use_parens_for_call_node(&ps, &c, b"foo", true, main));

    // A brace block needs them.
    let mut c = plain_call("foo");
    c.arguments = Some(vec![other()]);
    c.block = Some(block("{", None));
    assert!(use_parens_for_call_node(&ps, &c, b"foo", true, main));

    // RSpec's `it "x" do` and `RSpec.describe Foo do` have none.
    let mut c = plain_call("it");
    c.arguments = Some(vec![other()]);
    c.block = Some(block("do", None));
    assert!(!use_parens_for_call_node(&ps, &c, b"it", true, main));
    let mut c = plain_call("describe");
    c.arguments = Some(vec![other()]);
    c.block = Some(block("do", None));
    c.receiver = Some(node(SyntaxKind::ConstantRead { name: b"RSpec".to_vec() }, 0, 5));
    assert!(!use_parens_for_call_node(&ps, &c, b"describe", true, main));

    // In a class body, none where none were written.
    let mut c = plain_call("validates");
    c.arguments = Some(vec![other()]);
    assert!(!use_parens_for_call_node(&ps, &c, b"validates", true, FormattingContext::ClassOrModule));
}

#[test]
fn parens_for_a_call_named_like_a_local_variable() {
    let mut ps = empty_state();
    ps.bind_variable(b"foo");
    let mut c = plain_call("foo");
    c.arguments = Some(vec![other()]);
    assert!(!use_parens_for_call_node(&ps, &c, b"foo", true, FormattingContext::Main));
    c.has_opening = true;
    assert!(use_parens_for_call_node(&ps, &c, b"foo", true, FormattingContext::Main));
    let mut c = plain_call("foo");
    c.receiver = Some(node(SyntaxKind::SelfNode, 0, 4));
    assert!(use_parens_for_call_node(&ps, &c, b"foo", true, FormattingContext::Main));
}

#[test]
fn block_bodies_over_several_lines() {
    assert!(block_body_renders_multiline(b"do", None));
    assert!(!block_body_renders_multiline(b"{", None));
    let two = statements(vec![other(), other()]);
    assert!(block_body_renders_multiline(b"{", Some(&two)));
    let one = statements(vec![other()]);
    assert!(!block_body_renders_multiline(b"{", Some(&one)));

    let mut c = plain_call("each");
    c.block = Some(block("do", None));
    assert!(element_forces_chain_to_multiline(&call_node(c, 0, 0)));
    let lambda = node(SyntaxKind::Lambda { opening: b"{".to_vec(), body: Some(Box::new(two)) }, 0, 0);
    assert!(element_forces_chain_to_multiline(&lambda));
    assert!(!element_forces_chain_to_multiline(&other()));
}

#[test]
fn chain_start_is_the_message_or_the_operator() {
    let mut c = plain_call("bar");
    c.message_start = Some(7);
    c.call_operator_start = Some(6);
    assert_eq!(start_loc_for_call_node_in_chain(&c), 7);
    c.message_start = None;
    assert_eq!(start_loc_for_call_node_in_chain(&c), 6);
}

fn dot_call(name: &str, op: usize, msg: usize) -> SyntaxNode {
    let mut c = plain_call(name);
    c.call_operator_start = Some(op);
    c.message_start = Some(msg);
    call_node(c, 0, msg + name.len())
}

#[test]
fn chain_over_several_lines_stays_so() {
    // foo
    //   .bar
    //   .baz
    let source = b"foo\n  .bar\n  .baz\n";
    let ps = state_for(source, 3);
    let foo = node(SyntaxKind::LocalVariableRead, 0, 3);
    let bar = dot_call("bar", 6, 7);
    let baz = dot_call("baz", 13, 14);
    assert!(call_chain_should_be_multilined(&ps, &[&foo, &bar, &baz]));
}

#[test]
fn chain_on_one_line_stays_so() {
    let source = b"foo.bar.baz\n";
    let ps = state_for(source, 1);
    let foo = node(SyntaxKind::LocalVariableRead, 0, 3);
    let bar = dot_call("bar", 3, 4);
    let baz = dot_call("baz", 7, 8);
    assert!(!call_chain_should_be_multilined(&ps, &[&foo, &bar, &baz]));
}

#[test]
fn literal_head_of_a_chain_is_not_counted() {
    // [1, 2]
    //   .freeze
    let source = b"[1, 2]\n  .freeze\n";
    let ps = state_for(source, 2);
    let array = node(SyntaxKind::Other, 0, 6);
    let freeze = dot_call("freeze", 9, 10);
    assert!(!call_chain_should_be_multilined(&ps, &[&array, &freeze]));
    // A plain receiver on its own line does count.
    let foo = node(SyntaxKind::LocalVariableRead, 0, 6);
    assert!(call_chain_should_be_multilined(&ps, &[&foo, &freeze]));
}

#[test]
fn a_do_block_in_a_chain_breaks_it() {
    let source = b"foo.each do end.bar\n";
    let ps = state_for(source, 1);
    let foo = node(SyntaxKind::LocalVariableRead, 0, 3);
    let mut each = plain_call("each");
    each.call_operator_start = Some(3);
    each.message_start = Some(4);
    each.block = Some(block("do", None));
    let each = call_node(each, 0, 15);
    let bar = dot_call("bar", 15, 16);
    assert!(call_chain_should_be_multilined(&ps, &[&foo, &each, &bar]));
}

#[test]
fn trailing_index_calls_are_split_off() {
    let a = node(SyntaxKind::LocalVariableRead, 0, 1);
    let b = dot_call("b", 1, 2);
    let mut i1 = plain_call("[]");
    i1.message_start = Some(3);
    let i1 = call_node(i1, 0, 6);
    let mut i2 = plain_call("[]");
    i2.message_start = Some(6);
    let i2 = call_node(i2, 0, 9);
    let (rest, arefs) = extract_trailing_arefs(vec![&a, &b, &i1, &i2]);
    assert_eq!(rest.len(), 2);
    assert_eq!(arefs.len(), 2);
    assert_eq!(arefs[0].end_offset, 6);
    assert_eq!(arefs[1].end_offset, 9);

    // Without a dot call nothing is split off.
    let (rest, arefs) = extract_trailing_arefs(vec![&a, &i1]);
    assert_eq!(rest.len(), 2);
    assert!(arefs.is_empty());
}

fn name_of(n: &SyntaxNode) -> Vec<u8> {
    match &n.kind {
        SyntaxKind::Call(c) => c.name.clone(),
        _ => b"-".to_vec(),
    }
}

#[test]
fn chains_are_cut_after_index_calls_followed_by_dot_calls() {
    // a.b[1].c
    let a = node(SyntaxKind::LocalVariableRead, 0, 1);
    let mut b = plain_call("b");
    b.receiver = Some(a);
    b.call_operator_start = Some(1);
    b.message_start = Some(2);
    let mut idx = plain_call("[]");
    idx.receiver = Some(call_node(b, 0, 3));
    idx.message_start = Some(3);
    let mut c = plain_call("c");
    c.receiver = Some(call_node(idx, 0, 6));
    c.call_operator_start = Some(6);
    c.message_start = Some(7);
    let top = call_node(c, 0, 8);
    let chains = split_node_into_call_chains(&top);
    assert_eq!(chains.len(), 2);
    let first: Vec<Vec<u8>> = chains[0].iter().map(|n| name_of(n)).collect();
    let second: Vec<Vec<u8>> = chains[1].iter().map(|n| name_of(n)).collect();
    assert_eq!(first, vec![b"-".to_vec(), b"b".to_vec(), b"[]".to_vec()]);
    assert_eq!(second, vec![b"c".to_vec()]);
}

#[test]
fn a_plain_chain_is_one_segment_and_unary_operators_end_it() {
    // a.b.c
    let a = node(SyntaxKind::LocalVariableRead, 0, 1);
    let mut b = plain_call("b");
    b.receiver = Some(a);
    b.call_operator_start = Some(1);
    let mut c = plain_call("c");
    c.receiver = Some(call_node(b, 0, 3));
    c.call_operator_start = Some(3);
    let top = call_node(c, 0, 5);
    let chains = split_node_into_call_chains(&top);
    assert_eq!(chains.len(), 1);
    assert_eq!(chains[0].len(), 3);

    // !a.b: the `!` is no part of a chain.
    let mut bang = plain_call("!");
    bang.receiver = Some(top);
    let not = call_node(bang, 0, 6);
    let chains = split_node_into_call_chains(&not);
    assert_eq!(chains.len(), 1);
    assert_eq!(chains[0].len(), 1);
    assert_eq!(name_of(chains[0][0]), b"!".to_vec());
}

fn string_part(raw: &[u8], unescaped: &[u8]) -> SyntaxNode {
    node(SyntaxKind::StringNode { raw: raw.to_vec(), unescaped: unescaped.to_vec() }, 0, 0)
}

#[test]
fn common_indent_of_a_string_part() {
    assert_eq!(string_part_common_indent(b"    foo\n", b"  foo\n"), Some(2));
    assert_eq!(string_part_common_indent(b"foo", b"foo"), None);
    assert_eq!(string_part_common_indent(b"  \tfoo", b"\tfoo"), Some(2));
    // An escaped tab after the indent is content, not indentation.
    assert_eq!(string_part_common_indent(b"  \\tfoo", b"\tfoo"), Some(2));
}

#[test]
fn common_indent_of_a_squiggly_heredoc() {
    let parts = vec![
        string_part(b"foo", b"foo"),
        node(SyntaxKind::Other, 0, 0),
        string_part(b"    bar\n", b"bar\n"),
        string_part(b"  baz\n", b"baz\n"),
    ];
    assert_eq!(heredoc_common_indent(&parts, HeredocKind::Squiggly), 4);
    assert_eq!(heredoc_common_indent(&parts, HeredocKind::Dash), 0);
    assert_eq!(heredoc_common_indent(&[], HeredocKind::Squiggly), 0);
}

#[test]
fn stripping_the_common_indent() {
    assert_eq!(strip_heredoc_indent(b"    a\n      b\n\n  c", 4, true), b"a\n  b\n\n  c".to_vec());
    // The first line is left alone where it does not start a line.
    assert_eq!(strip_heredoc_indent(b"    a\n    b", 4, false), b"    a\nb".to_vec());
    assert_eq!(strip_heredoc_indent(b"  a\n b", 0, true), b"  a\n b".to_vec());
}

#[test]
fn parameter_kinds_present() {
    let params = ParametersNode {
        requireds: vec![other()],
        optionals: vec![],
        rest: Some(other()),
        posts: vec![],
        keywords: vec![other(), other()],
        keyword_rest: None,
        block: Some(other()),
    };
    assert_eq!(non_null_positions(&params), [true, false, true, false, true, false, true]);
}
