use rubyfmt::delimiters::BreakableDelims;
use rubyfmt::file_comments::FileComments;
use rubyfmt::format_prism::{
    format_class_variable_target_node, format_constant_target_node, format_global_variable_target_node,
    format_instance_variable_target_node, format_keyword_rest_parameter_node, format_local_variable_target_node,
    format_match_last_line_node, format_no_keywords_parameter_node, format_regular_expression_node,
    format_required_keyword_parameter_node, format_symbol_node,
    format_back_reference_read_node, format_constant_read_node, format_false_node, format_integer_node,
    format_local_variable_read_node, format_required_parameter_node, format_source_line_node,
    format_true_node, format_x_string_node, handle_string_at_offset,
};
use rubyfmt::heredoc_string::{HeredocKind, HeredocSegment, HeredocString};
use rubyfmt::parser_state::ParserState;
use rubyfmt::render_targets::MultilineTracker;
use rubyfmt::ruby_comments::{RubyCommentBlock, RubyComments};
use rubyfmt::ruby_ops::{ruby_value_type, ParseError};

fn render(ps: ParserState) -> Vec<u8> {
    let mut out = Vec::new();
    ps.write(&mut out);
    out
}

#[test]
fn ruby_comments_start_block_and_others() {
    let mut rc = RubyComments::default();
    rc.push_comment(1, "# a".to_string());
    rc.push_comment(2, "# b".to_string());
    rc.push_comment(5, "# c".to_string());
    let start = rc.start_of_file_contiguous_comment_lines.as_ref().unwrap();
    assert_eq!(start.following_line_number(), 3);
    assert_eq!(start.comments, vec!["# a".to_string(), "# b".to_string()]);
    assert_eq!(rc.other_comments.get(&5), Some(&"# c".to_string()));
    assert_eq!(rc.other_comments.len(), 1);
}

#[test]
fn ruby_comments_without_start_block() {
    let mut rc = RubyComments::default();
    rc.push_comment(3, "# x".to_string());
    assert!(rc.start_of_file_contiguous_comment_lines.is_none());
    assert_eq!(rc.other_comments.len(), 1);
    let mut block = RubyCommentBlock { span: 4..5, comments: vec!["# y".to_string()] };
    block.add_line("# z".to_string());
    assert_eq!(block.following_line_number(), 6);
}

#[test]
fn ruby_value_tags() {
    assert_eq!(ruby_value_type::RUBY_T_NONE.tag(), 0x00);
    assert_eq!(ruby_value_type::RUBY_T_STRING.tag(), 0x05);
    assert_eq!(ruby_value_type::RUBY_T_NIL.tag(), 0x11);
    assert_eq!(ruby_value_type::RUBY_T_MASK.tag(), 0x1f);
    assert!(matches!(ParseError::OtherRubyError("x".to_string()), ParseError::OtherRubyError(_)));
}

#[test]
fn leaves_on_their_lines() {
    let source = b"true\nfalse\n42\n";
    let mut ps = ParserState::new(FileComments::from_prism_comments(vec![], source, 3));
    format_true_node(&mut ps, 0);
    assert_eq!(ps.current_orig_line_number, 1);
    ps.emit_newline();
    format_false_node(&mut ps, 5);
    assert_eq!(ps.current_orig_line_number, 2);
    ps.emit_newline();
    format_integer_node(&mut ps, b"42", 11);
    assert_eq!(ps.current_orig_line_number, 3);
    ps.emit_newline();
    assert_eq!(render(ps), b"true\nfalse\n42\n".to_vec());
}

#[test]
fn more_leaves() {
    let mut ps = ParserState::new(FileComments::default());
    format_source_line_node(&mut ps, 0);
    ps.emit_comma_space();
    format_constant_read_node(&mut ps, b"Foo", 0);
    ps.emit_comma_space();
    format_back_reference_read_node(&mut ps, b"$&", 2);
    ps.emit_comma_space();
    format_local_variable_read_node(&mut ps, b"x");
    ps.emit_comma_space();
    format_required_parameter_node(&mut ps, b"arg");
    assert!(ps.scope_has_variable(b"arg"));
    ps.emit_comma_space();
    assert_eq!(ps.current_orig_line_number, 1);
    format_x_string_node(&mut ps, b"ls\n-la");
    assert_eq!(ps.current_orig_line_number, 2);
    ps.emit_comma_space();
    handle_string_at_offset(&mut ps, b"ok", 0);
    ps.emit_newline();
    assert_eq!(render(ps), b"__LINE__, Foo, $&, x, arg, `ls\n-la`, ok\n".to_vec());
}

#[test]
fn moving_to_the_same_line_twice_adds_no_blank_line() {
    let mut ps = ParserState::new(FileComments::from_prism_comments(vec![], b"a\nb\n\n\nc\n", 5));
    ps.on_line(1);
    ps.emit_ident(b"a");
    ps.emit_newline();
    ps.on_line(2);
    ps.on_line(2);
    ps.emit_ident(b"b");
    ps.emit_newline();
    assert_eq!(render(ps), b"a\nb\n".to_vec());
}

#[test]
fn later_offsets_are_on_later_lines() {
    let fc = FileComments::from_prism_comments(vec![], b"ab\ncd\n\nef", 4);
    let mut last = 0;
    for offset in 0..12 {
        let line = fc.get_line_number_for_offset(offset);
        assert!(line >= last);
        last = line;
    }
    assert_eq!(last, 4);
}

#[test]
fn rendering_keeps_the_lines_of_the_body() {
    let body = b"a\n  b  \n\n c".to_vec();
    let h = HeredocString::new(b"X".to_vec(), HeredocKind::Squiggly, vec![HeredocSegment::Normal(body.clone())], 4);
    let rendered = h.render_as_bytes();
    let count = |s: &[u8]| s.iter().filter(|&&b| b == b'\n').count();
    assert_eq!(count(&rendered), count(&body));
    assert_eq!(rendered, b"      a\n        b\n\n       c".to_vec());
}

#[test]
fn tracker_sees_a_line_twice_as_once() {
    let mut once = MultilineTracker::new();
    once.on_line(7);
    let mut twice = MultilineTracker::new();
    twice.on_line(7);
    twice.on_line(7);
    assert_eq!(once, twice);
    assert!(!twice.is_multiline());
}

#[test]
fn assignment_targets_and_regular_expressions() {
    let mut ps = ParserState::new(FileComments::from_prism_comments(vec![], b"a\n", 1));
    format_regular_expression_node(&mut ps, b"/", b"a+b", b"/i");
    ps.emit_comma_space();
    format_match_last_line_node(&mut ps, b"%r{", b"x", b"}");
    ps.emit_comma_space();
    format_required_keyword_parameter_node(&mut ps, b"key");
    assert!(ps.scope_has_variable(b"key"));
    ps.emit_comma_space();
    format_local_variable_target_node(&mut ps, b"t");
    assert!(ps.scope_has_variable(b"t"));
    ps.emit_comma_space();
    format_global_variable_target_node(&mut ps, b"$g");
    ps.emit_comma_space();
    format_instance_variable_target_node(&mut ps, b"@i");
    ps.emit_comma_space();
    format_class_variable_target_node(&mut ps, b"@@c");
    ps.emit_comma_space();
    format_constant_target_node(&mut ps, b"C", 0);
    ps.emit_newline();
    assert_eq!(render(ps), b"/a+b/i, %r{x}, key:, t, $g, @i, @@c, C\n".to_vec());
}

#[test]
fn keyword_rest_parameters() {
    let mut ps = ParserState::new(FileComments::from_prism_comments(vec![], b"a\n", 1));
    ps.at_offset(0);
    ps.emit_ident(b"f");
    ps.breakable_of(BreakableDelims::for_method_call(), |ps| {
        format_keyword_rest_parameter_node(ps, Some(b"opts"));
    });
    assert!(ps.scope_has_variable(b"opts"));
    ps.emit_comma_space();
    ps.emit_ident(b"g");
    ps.breakable_of(BreakableDelims::for_method_call(), |ps| {
        format_keyword_rest_parameter_node(ps, None);
    });
    ps.emit_comma_space();
    ps.emit_ident(b"h");
    ps.breakable_of(BreakableDelims::for_method_call(), |ps| {
        format_no_keywords_parameter_node(ps, 0);
    });
    ps.emit_newline();
    assert_eq!(render(ps), b"f(**opts), g(**), h(**nil)\n".to_vec());
}

fn some(b: &[u8]) -> Option<&[u8]> {
    Some(b)
}

#[test]
fn symbols_are_written_as_written_or_double_quoted() {
    let mut ps = ParserState::new(FileComments::from_prism_comments(vec![], b"a\n", 1));
    format_symbol_node(&mut ps, some(b":"), some(b"foo"), None);
    ps.emit_comma_space();
    format_symbol_node(&mut ps, some(b":'"), some(b"say \"hi\""), some(b"'"));
    ps.emit_comma_space();
    format_symbol_node(&mut ps, some(b":'"), None, some(b"'"));
    ps.emit_comma_space();
    format_symbol_node(&mut ps, None, some(b"key"), some(b":"));
    ps.emit_comma_space();
    format_symbol_node(&mut ps, some(b"\""), some(b"k"), some(b"\":"));
    ps.emit_newline();
    assert_eq!(render(ps), b":foo, :\"say \\\"hi\\\"\", :\"\", key, \"k\"\n".to_vec());
}
