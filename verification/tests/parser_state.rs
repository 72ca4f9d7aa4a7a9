use rubyfmt::delimiters::BreakableDelims;
use rubyfmt::file_comments::{FileComments, PrismComment};
use rubyfmt::format::{emit_intermediate_array_separator, emit_params_separator, percent_symbol_for};
use rubyfmt::format_prism::{
    emit_symbol_key_closer, format_nil_node, format_redo_node, format_retry_node, format_self_node,
    matching_delimiter,
};
use rubyfmt::heredoc_string::HeredocKind;
use rubyfmt::line_tokens::{AbstractLineToken, ConcreteLineToken, ConcreteLineTokenAndTargets};
use rubyfmt::render_targets::Breakable;
use rubyfmt::parser_state::{line_difference_requires_newline, FormattingContext, HashType, ParserState};

fn render(ps: ParserState) -> Vec<u8> {
    let mut out = Vec::new();
    ps.write(&mut out);
    out
}

fn last_concrete(ps: &ParserState) -> ConcreteLineToken {
    match ps.render_queue.tokens.last() {
        Some(ConcreteLineTokenAndTargets::ConcreteLineToken(t)) => t.clone_token(),
        _ => panic!("expected a plain token"),
    }
}

trait CloneToken {
    fn clone_token(&self) -> ConcreteLineToken;
}

impl CloneToken for ConcreteLineToken {
    fn clone_token(&self) -> ConcreteLineToken {
        match self {
            ConcreteLineToken::DirectPart { part } => ConcreteLineToken::DirectPart { part: part.clone() },
            ConcreteLineToken::Keyword { keyword } => ConcreteLineToken::Keyword { keyword: keyword.clone() },
            ConcreteLineToken::ConditionalKeyword { contents } => {
                ConcreteLineToken::ConditionalKeyword { contents: contents.clone() }
            }
            ConcreteLineToken::Comma => ConcreteLineToken::Comma,
            ConcreteLineToken::HardNewLine => ConcreteLineToken::HardNewLine,
            ConcreteLineToken::End => ConcreteLineToken::End,
            ConcreteLineToken::Indent { depth } => ConcreteLineToken::Indent { depth: *depth },
            ConcreteLineToken::CommaSpace => ConcreteLineToken::CommaSpace,
            _ => panic!("not needed"),
        }
    }
}

#[test]
fn line_differences() {
    assert!(line_difference_requires_newline(5, 3));
    assert!(!line_difference_requires_newline(4, 3));
    assert!(!line_difference_requires_newline(3, 5));
    assert!(!line_difference_requires_newline(3, 3));
}

#[test]
fn new_state() {
    let ps = ParserState::new(FileComments::default());
    assert_eq!(ps.current_spaces(), 0);
    assert!(ps.at_start_of_line());
    assert_eq!(ps.current_formatting_context(), FormattingContext::Main);
    assert!(!ps.current_formatting_context_requires_parens());
    assert!(ps.hash_type_from_formatting_context().is_none());
    assert!(!ps.has_pending_heredocs());
    assert!(!ps.last_token_is_a_newline());
    assert_eq!(ps.index_of_prev_hard_newline(), None);
}

#[test]
fn ident_and_newline_render() {
    let mut ps = ParserState::new(FileComments::default());
    ps.emit_ident(b"foo");
    ps.emit_space();
    ps.emit_op(b"=");
    ps.emit_space();
    ps.emit_ident(b"1");
    ps.emit_newline();
    assert!(ps.last_token_is_a_newline());
    assert_eq!(render(ps), b"foo = 1\n".to_vec());
}

#[test]
fn keywords_render() {
    let mut ps = ParserState::new(FileComments::default());
    ps.emit_def_keyword();
    ps.emit_space();
    ps.emit_method_name(b"run");
    ps.emit_newline();
    ps.start_indent();
    ps.emit_indent();
    ps.emit_keyword(b"retry");
    ps.emit_newline();
    ps.end_indent();
    ps.emit_end();
    assert_eq!(render(ps), b"def run\n  retry\nend".to_vec());
}

#[test]
fn indentation_nests() {
    let mut ps = ParserState::new(FileComments::default());
    ps.new_block(|ps| {
        assert_eq!(ps.current_spaces(), 2);
        ps.new_block(|ps| assert_eq!(ps.current_spaces(), 4));
        ps.dedent(|ps| assert_eq!(ps.current_spaces(), 0));
    });
    assert_eq!(ps.current_spaces(), 0);
}

#[test]
fn contexts_are_restored() {
    let mut ps = ParserState::new(FileComments::default());
    ps.with_formatting_context(FormattingContext::HashType(HashType::SymbolKey), |ps| {
        ps.with_formatting_context(FormattingContext::Binary, |ps| {
            assert!(ps.current_formatting_context_requires_parens());
            assert_eq!(ps.hash_type_from_formatting_context(), Some(&HashType::SymbolKey));
        });
    });
    assert_eq!(ps.current_formatting_context(), FormattingContext::Main);
    ps.with_start_of_line(false, |ps| assert!(!ps.at_start_of_line()));
    assert!(ps.at_start_of_line());
}

#[test]
fn scopes() {
    let mut ps = ParserState::new(FileComments::default());
    ps.bind_variable(b"a");
    assert!(ps.scope_has_variable(b"a"));
    ps.new_scope(|ps| {
        assert!(!ps.scope_has_variable(b"a"));
        ps.bind_variable(b"b");
        assert!(ps.scope_has_variable(b"b"));
    });
    assert!(!ps.scope_has_variable(b"b"));
    assert!(ps.scope_has_variable(b"a"));
}

#[test]
fn short_array_stays_on_one_line() {
    let mut ps = ParserState::new(FileComments::default());
    ps.on_line(1);
    ps.breakable_of(BreakableDelims::for_array(), |ps| {
        ps.emit_ident(b"1");
        emit_intermediate_array_separator(ps, false);
        ps.emit_ident(b"2");
    });
    ps.emit_newline();
    assert_eq!(render(ps), b"[1, 2]\n".to_vec());
}

#[test]
fn array_over_two_lines_breaks() {
    let mut ps = ParserState::new(FileComments::default());
    ps.on_line(1);
    ps.breakable_of(BreakableDelims::for_array(), |ps| {
        ps.emit_soft_indent();
        ps.emit_ident(b"1");
        emit_intermediate_array_separator(ps, false);
        ps.on_line(2);
        ps.emit_ident(b"2");
    });
    ps.emit_newline();
    assert_eq!(render(ps), b"[\n  1,\n  2\n]\n".to_vec());
}

#[test]
fn params_separator_only_between_params() {
    let mut ps = ParserState::new(FileComments::default());
    ps.breakable_of(BreakableDelims::for_method_call(), |ps| {
        ps.emit_ident(b"a");
        emit_params_separator(ps, 0, 2);
        ps.emit_ident(b"b");
        emit_params_separator(ps, 1, 2);
    });
    ps.emit_newline();
    assert_eq!(render(ps), b"(a, b)\n".to_vec());
}

#[test]
fn comments_are_shifted_before_code() {
    let source = b"x\n# c\ny\n";
    let fc = FileComments::from_prism_comments(
        vec![PrismComment { line: 2, start: 2, text: b"# c".to_vec() }],
        source,
        3,
    );
    let mut ps = ParserState::new(fc);
    ps.flush_start_of_file_comments();
    assert_eq!(ps.current_orig_line_number, 1);
    ps.emit_indent();
    ps.emit_ident(b"x");
    ps.emit_newline();
    ps.on_line(3);
    assert!(ps.comments_to_insert.is_some());
    ps.emit_indent();
    ps.emit_ident(b"y");
    ps.emit_newline();
    assert_eq!(render(ps), b"x\n# c\ny\n".to_vec());
}

#[test]
fn start_of_file_comments_are_written_first() {
    let source = b"# a\n# b\nx\n";
    let fc = FileComments::from_prism_comments(
        vec![
            PrismComment { line: 1, start: 0, text: b"# a".to_vec() },
            PrismComment { line: 2, start: 4, text: b"# b".to_vec() },
        ],
        source,
        3,
    );
    let mut ps = ParserState::new(fc);
    ps.flush_start_of_file_comments();
    assert_eq!(ps.current_orig_line_number, 2);
    ps.on_line(3);
    ps.emit_ident(b"x");
    ps.emit_newline();
    assert_eq!(render(ps), b"# a\n# b\nx\n".to_vec());
}

#[test]
fn user_blank_lines_are_kept() {
    let mut ps = ParserState::new(FileComments::from_prism_comments(vec![], b"a\n\nb\n", 3));
    ps.on_line(1);
    ps.emit_ident(b"a");
    ps.emit_newline();
    ps.on_line(3);
    ps.emit_ident(b"b");
    ps.emit_newline();
    assert_eq!(render(ps), b"a\n\nb\n".to_vec());
}

#[test]
fn string_content_moves_the_line() {
    let mut ps = ParserState::new(FileComments::default());
    ps.on_line(1);
    ps.emit_double_quote();
    ps.emit_string_content(b"a\nb\n");
    ps.emit_double_quote();
    assert_eq!(ps.current_orig_line_number, 3);
}

#[test]
fn heredoc_is_rendered_after_the_newline() {
    let mut ps = ParserState::new(FileComments::default());
    ps.on_line(1);
    ps.emit_ident(b"x");
    ps.emit_space();
    ps.emit_op(b"=");
    ps.emit_space();
    ps.emit_heredoc_start(b"<<~FOO", HeredocKind::Squiggly);
    ps.push_heredoc_content(b"FOO", HeredocKind::Squiggly, 3, |ps| {
        ps.emit_string_content(b"hello");
    });
    assert!(ps.has_pending_heredocs());
    assert_eq!(ps.current_orig_line_number, 3);
    ps.emit_newline();
    assert!(!ps.has_pending_heredocs());
    assert_eq!(render(ps), b"x = <<~FOO\n  hello\nFOO\n".to_vec());
}

#[test]
fn end_goes_on_its_own_line() {
    let mut ps = ParserState::new(FileComments::default());
    ps.emit_ident(b"begin");
    ps.emit_end();
    assert!(matches!(last_concrete(&ps), ConcreteLineToken::End));
    assert_eq!(render(ps), b"begin\nend".to_vec());
}

#[test]
fn conditional_keywords() {
    let mut ps = ParserState::new(FileComments::default());
    ps.emit_else();
    match last_concrete(&ps) {
        ConcreteLineToken::ConditionalKeyword { contents } => assert_eq!(contents, b"else".to_vec()),
        _ => panic!("expected else"),
    }
    ps.emit_rescue();
    match last_concrete(&ps) {
        ConcreteLineToken::Keyword { keyword } => assert_eq!(keyword, b"rescue".to_vec()),
        _ => panic!("expected rescue"),
    }
}

#[test]
fn soft_newline_in_a_breakable() {
    let mut ps = ParserState::new(FileComments::default());
    ps.breakable_of(BreakableDelims::for_parens(), |ps| {
        ps.emit_ident(b"a");
        ps.emit_soft_newline();
        match ps.breakable_entry_stack.last() {
            Some(Breakable::DelimiterExpr(be)) => {
                assert!(matches!(be.tokens.last(), Some(AbstractLineToken::SoftNewline(_))))
            }
            _ => panic!("a delimited entry is open"),
        }
    });
}

#[test]
fn percent_symbols() {
    assert_eq!(percent_symbol_for("qsymbols".to_string()), "%i");
    assert_eq!(percent_symbol_for("qwords".to_string()), "%w");
    assert_eq!(percent_symbol_for("symbols".to_string()), "%I");
    assert_eq!(percent_symbol_for("words".to_string()), "%W");
}

#[test]
fn delimiters_match() {
    assert_eq!(matching_delimiter(b'['), b']');
    assert_eq!(matching_delimiter(b'('), b')');
    assert_eq!(matching_delimiter(b'{'), b'}');
    assert_eq!(matching_delimiter(b'<'), b'>');
    assert_eq!(matching_delimiter(b'|'), b'|');
}

#[test]
fn leaf_nodes() {
    let mut ps = ParserState::new(FileComments::default());
    format_nil_node(&mut ps);
    ps.emit_comma_space();
    format_self_node(&mut ps);
    ps.emit_comma_space();
    format_redo_node(&mut ps);
    ps.emit_comma_space();
    format_retry_node(&mut ps);
    ps.emit_comma_space();
    emit_symbol_key_closer(&mut ps, b"key:");
    emit_symbol_key_closer(&mut ps, b":");
    ps.emit_newline();
    assert_eq!(render(ps), b"nil, self, redo, retry, key\n".to_vec());
}

#[test]
fn closures_run_in_the_pushed_context_which_is_then_dropped() {
    let mut ps = rubyfmt::parser_state::ParserState::new(rubyfmt::file_comments::FileComments::default());
    let mut seen = None;
    ps.with_formatting_context(rubyfmt::parser_state::FormattingContext::Def, |inner| {
        seen = Some(inner.current_formatting_context());
    });
    assert_eq!(seen, Some(rubyfmt::parser_state::FormattingContext::Def));
    assert_eq!(ps.current_formatting_context(), rubyfmt::parser_state::FormattingContext::Main);
}

#[test]
fn pending_heredocs_are_rendered_in_declaration_order() {
    let mut ps = ParserState::new(FileComments::default());
    ps.on_line(1);
    ps.emit_ident(b"f");
    ps.emit_space();
    ps.emit_heredoc_start(b"<<A", HeredocKind::Bare);
    ps.push_heredoc_content(b"A", HeredocKind::Bare, 2, |ps| {
        ps.emit_string_content(b"one");
    });
    ps.emit_space();
    ps.emit_heredoc_start(b"<<B", HeredocKind::Bare);
    ps.push_heredoc_content(b"B", HeredocKind::Bare, 3, |ps| {
        ps.emit_string_content(b"two");
    });
    ps.emit_newline();
    assert_eq!(render(ps), b"f <<A <<B\none\nA\ntwo\nB\n".to_vec());
}
