use rubyfmt::delimiters::BreakableDelims;
use rubyfmt::heredoc_string::{HeredocKind, HeredocSegment, HeredocString};
use rubyfmt::intermediary::{BlanklineReason, Intermediary};
use rubyfmt::line_metadata::LineMetadata;
use rubyfmt::line_tokens::{
    clats_direct_part, clats_heredoc_close, clats_indent, cltats_hard_newline, AbstractLineToken,
    ConcreteLineToken, ConcreteLineTokenAndTargets,
};
use rubyfmt::parser_state::FormattingContext;
use rubyfmt::render_queue_writer::RenderQueueWriter;
use rubyfmt::render_targets::{
    AbstractTokenTarget, BaseQueue, Breakable, BreakableCallChainEntry, BreakableEntry, MultilineTracker,
};
use rubyfmt::util::get_indent;
use rubyfmt::{check_syntax, FormatError, RichFormatError};

fn part(s: &[u8]) -> ConcreteLineToken {
    ConcreteLineToken::DirectPart { part: s.to_vec() }
}

fn write(tokens: Vec<ConcreteLineTokenAndTargets>) -> Vec<u8> {
    let mut out = Vec::new();
    RenderQueueWriter::new(tokens).write(&mut out);
    out
}

#[test]
fn heredoc_kinds() {
    assert_eq!(HeredocKind::from_bytes(b"<<~"), HeredocKind::Squiggly);
    assert_eq!(HeredocKind::from_bytes(b"<<-"), HeredocKind::Dash);
    assert_eq!(HeredocKind::from_bytes(b"<<"), HeredocKind::Bare);
    assert!(HeredocKind::Squiggly.is_squiggly());
    assert!(HeredocKind::Bare.is_bare());
    assert!(!HeredocKind::Dash.is_bare());
}

#[test]
fn squiggly_heredoc_lines_are_indented_and_trimmed() {
    let h = HeredocString::new(
        b"FOO".to_vec(),
        HeredocKind::Squiggly,
        vec![HeredocSegment::Normal(b"a  \n\nb".to_vec()), HeredocSegment::Raw(b"\nraw \n".to_vec())],
        2,
    );
    assert_eq!(h.render_as_bytes(), b"    a\n\n    b\nraw\n".to_vec());
}

#[test]
fn plain_heredoc_lines_are_only_trimmed() {
    let h = HeredocString::new(
        b"FOO".to_vec(),
        HeredocKind::Dash,
        vec![HeredocSegment::Normal(b"  a \t\n b".to_vec())],
        4,
    );
    assert_eq!(h.render_as_bytes(), b"  a\n b".to_vec());
}

#[test]
fn closing_symbol_drops_quotes() {
    let h = HeredocString::new(b"'RUBY'".to_vec(), HeredocKind::Squiggly, vec![], 0);
    assert_eq!(h.closing_symbol(), b"RUBY".to_vec());
    let h = HeredocString::new(b"\"SQL\"".to_vec(), HeredocKind::Dash, vec![], 0);
    assert_eq!(h.closing_symbol(), b"SQL".to_vec());
}

#[test]
fn token_bytes_and_lengths() {
    let cases: Vec<(ConcreteLineToken, &[u8])> = vec![
        (ConcreteLineToken::HardNewLine, b"\n"),
        (ConcreteLineToken::Indent { depth: 3 }, b"   "),
        (ConcreteLineToken::DefKeyword, b"def"),
        (ConcreteLineToken::ClassKeyword, b"class"),
        (ConcreteLineToken::ModuleKeyword, b"module"),
        (ConcreteLineToken::DoKeyword, b"do"),
        (ConcreteLineToken::CommaSpace, b", "),
        (ConcreteLineToken::LonelyOperator, b"&."),
        (ConcreteLineToken::ColonColon, b"::"),
        (ConcreteLineToken::SingleSlash, b"\\"),
        (ConcreteLineToken::End, b"end"),
        (ConcreteLineToken::AfterCallChain, b""),
        (part(b"xyz"), b"xyz"),
    ];
    for (token, bytes) in cases {
        assert_eq!(token.len(), bytes.len());
        assert_eq!(token.into_ruby(), bytes.to_vec());
    }
}

#[test]
fn token_predicates() {
    assert!(ConcreteLineToken::HardNewLine.is_newline());
    assert!(!part(b"x").is_newline());
    assert!(ConcreteLineToken::Indent { depth: 0 }.is_indent());
    assert!(ConcreteLineToken::Space.is_single_line_breakable_garbage());
    assert!(part(b"").is_single_line_breakable_garbage());
    assert!(!ConcreteLineToken::Comma.is_single_line_breakable_garbage());
    assert!(!ConcreteLineToken::End.is_single_line_breakable_garbage());
    assert!(cltats_hard_newline().is_newline());
    assert!(clats_indent(2).is_indent());
    assert!(!clats_direct_part(b"a".to_vec()).is_newline());
    assert!(!clats_heredoc_close(b"A".to_vec()).is_indent());
}

#[test]
fn delimiters() {
    let d = BreakableDelims::for_array();
    assert_eq!(d.single_line_open().into_ruby(), b"[".to_vec());
    assert_eq!(d.single_line_close().into_ruby(), b"]".to_vec());
    assert_eq!(d.single_line_len(), 2);
    let p = BreakableDelims::for_block_params();
    assert_eq!(p.single_line_open().into_ruby(), b" |".to_vec());
    assert_eq!(p.multi_line_close().into_ruby(), b"|".to_vec());
    assert!(d.same_as(&BreakableDelims::for_array()));
    assert!(!d.same_as(&BreakableDelims::for_hash()));
    assert!(d.copy().same_as(&d));
    assert_eq!(BreakableDelims::for_hash().single_line_open().into_ruby(), b"{".to_vec());
    assert_eq!(BreakableDelims::for_method_call().single_line_open().into_ruby(), b"(".to_vec());
}

#[test]
fn multiline_tracker() {
    let mut t = MultilineTracker::new();
    t.on_line(3);
    t.on_line(3);
    assert!(!t.is_multiline());
    t.on_line(4);
    assert!(t.is_multiline());
}

#[test]
fn base_queue() {
    let mut q = BaseQueue::default();
    assert!(!q.last_token_is_a_newline());
    q.push(clats_direct_part(b"a".to_vec()));
    q.push(cltats_hard_newline());
    assert!(q.last_token_is_a_newline());
    q.push(clats_indent(2));
    q.push(clats_direct_part(b"b".to_vec()));
    assert_eq!(q.index_of_prev_newline(), Some(2));
    q.insert_at(1, vec![clats_direct_part(b"c".to_vec())]);
    assert_eq!(q.index_of_prev_newline(), Some(3));
    assert_eq!(q.into_tokens().len(), 5);
}

#[test]
fn breakable_entry_lengths() {
    let mut be = BreakableEntry::new(BreakableDelims::for_method_call(), &[FormattingContext::Main]);
    assert!(!be.in_string_embexpr());
    be.insert_at(0, vec![AbstractLineToken::ConcreteLineToken(part(b"abc"))]);
    let mut b = Breakable::DelimiterExpr(be);
    b.push(AbstractLineToken::SoftNewline(None));
    b.push(AbstractLineToken::ConcreteLineToken(part(b"de")));
    assert_eq!(b.len(), 3);
    assert_eq!(b.index_of_prev_newline(), Some(2));
    assert!(!b.last_token_is_a_newline());
    let be = b.into_breakable_entry().unwrap();
    assert_eq!(be.single_line_len(), 8);
    assert!(!be.contains_hard_newline());
    let in_string = BreakableEntry::new(BreakableDelims::for_parens(), &[FormattingContext::StringEmbexpr]);
    assert!(in_string.in_string_embexpr());
}

#[test]
fn call_chain_magic_tokens_are_removed() {
    let mut bcce = BreakableCallChainEntry::new(&[FormattingContext::Main], false);
    bcce.insert_at(
        0,
        vec![
            AbstractLineToken::ConcreteLineToken(part(b"a")),
            AbstractLineToken::ConcreteLineToken(ConcreteLineToken::BeginCallChainIndent),
            AbstractLineToken::ConcreteLineToken(ConcreteLineToken::Dot),
            AbstractLineToken::ConcreteLineToken(ConcreteLineToken::EndCallChainIndent),
        ],
    );
    bcce.remove_call_chain_magic_tokens();
    assert_eq!(bcce.tokens.len(), 2);
    assert_eq!(bcce.single_line_len(), 2);
    let b = Breakable::CallChain(bcce);
    assert!(b.into_breakable_entry().is_none());
}

#[test]
fn line_metadata() {
    let mut m = LineMetadata::new();
    assert!(m.wants_spacer_for_conditional());
    assert!(!m.has_require());
    m.set_has_require();
    assert!(m.has_require());
    m.set_has_end();
    assert!(!m.wants_spacer_for_conditional());
    let mut a = LineMetadata::new();
    let mut b = LineMetadata::new();
    a.observe_indent_level(1);
    b.observe_indent_level(2);
    assert!(LineMetadata::indent_level_increases_between(&a, &b));
    assert!(!LineMetadata::indent_level_increases_between(&b, &a));
    assert!(LineMetadata::indent_level_increases_between(&LineMetadata::new(), &b));
    b.set_gets_indented();
    assert!(b.gets_indented());
}

#[test]
fn intermediary_collects_tokens() {
    let mut i = Intermediary::new();
    assert_eq!(i.len(), 0);
    i.push(part(b"a"));
    i.push(ConcreteLineToken::HardNewLine);
    i.push(ConcreteLineToken::Indent { depth: 2 });
    i.push(part(b"bc"));
    assert_eq!(i.len(), 4);
    assert_eq!(i.current_line_length(), 4);
    assert!(i.last(2).is_some());
    assert!(i.last(5).is_none());
    assert_eq!(i.into_tokens().len(), 4);
}

#[test]
fn intermediary_trailing_blankline() {
    let mut i = Intermediary::new();
    i.push(ConcreteLineToken::End);
    i.push(ConcreteLineToken::HardNewLine);
    i.push(ConcreteLineToken::Indent { depth: 0 });
    i.push(part(b"x"));
    i.insert_trailing_blankline(BlanklineReason::ComesAfterEnd);
    let tokens = i.into_tokens();
    assert_eq!(tokens.len(), 5);
    assert_eq!(tokens[2], ConcreteLineToken::HardNewLine);
}

#[test]
fn writer_drops_trailing_blank_lines() {
    let out = write(vec![
        clats_direct_part(b"a".to_vec()),
        cltats_hard_newline(),
        cltats_hard_newline(),
        cltats_hard_newline(),
    ]);
    assert_eq!(out, b"a\n".to_vec());
}

#[test]
fn writer_lays_out_long_entries_over_lines() {
    let mut be = BreakableEntry::new(BreakableDelims::for_method_call(), &[FormattingContext::Main]);
    be.insert_at(0, vec![AbstractLineToken::CollapsingNewLine(None)]);
    let long = vec![b'x'; 130];
    let mut b = Breakable::DelimiterExpr(be);
    b.push(AbstractLineToken::SoftIndent { depth: 2 });
    b.push(AbstractLineToken::ConcreteLineToken(part(&long)));
    b.push(AbstractLineToken::CollapsingNewLine(None));
    b.push(AbstractLineToken::SoftIndent { depth: 0 });
    let be = b.into_breakable_entry().unwrap();
    let out = write(vec![
        clats_direct_part(b"f".to_vec()),
        ConcreteLineTokenAndTargets::BreakableEntry(be),
        cltats_hard_newline(),
    ]);
    let mut expected = b"f(\n  ".to_vec();
    expected.extend_from_slice(&long);
    expected.extend_from_slice(b"\n)\n");
    assert_eq!(out, expected);
}

#[test]
fn indent_bytes() {
    assert_eq!(&*get_indent(0), &b""[..]);
    assert_eq!(&*get_indent(3), &b"   "[..]);
    assert!(matches!(get_indent(128), std::borrow::Cow::Borrowed(_)));
    assert!(matches!(get_indent(129), std::borrow::Cow::Owned(_)));
    assert_eq!(get_indent(200).len(), 200);
}

#[test]
fn exit_codes() {
    assert_eq!(RichFormatError::SyntaxError.as_exit_code(), 1);
    let io = RichFormatError::IOError(std::io::Error::new(std::io::ErrorKind::Other, "boom"));
    assert_eq!(io.as_exit_code(), 3);
    assert_eq!(FormatError::OK.code(), 0);
    assert_eq!(FormatError::RipperParseFailure.code(), 2);
    assert_eq!(FormatError::OtherRubyError.code(), 4);
    assert_eq!(FormatError::DiffDetected.code(), 5);
}

fn rendered(tokens: Vec<ConcreteLineToken>) -> Vec<u8> {
    let mut out = Vec::new();
    for t in tokens {
        out.extend(t.into_ruby());
    }
    out
}

fn push_all(tokens: Vec<ConcreteLineToken>) -> Vec<ConcreteLineToken> {
    let mut i = Intermediary::new();
    for t in tokens {
        i.push(t);
    }
    i.into_tokens()
}

#[test]
fn blank_line_before_class_after_a_plain_line() {
    let out = push_all(vec![
        ConcreteLineToken::Indent { depth: 0 },
        part(b"x"),
        ConcreteLineToken::HardNewLine,
        ConcreteLineToken::Indent { depth: 0 },
        ConcreteLineToken::ClassKeyword,
    ]);
    assert_eq!(rendered(out), b"x\n\nclass".to_vec());
}

#[test]
fn no_blank_line_before_class_inside_a_block() {
    let out = push_all(vec![
        ConcreteLineToken::ModuleKeyword,
        ConcreteLineToken::HardNewLine,
        ConcreteLineToken::Indent { depth: 2 },
        ConcreteLineToken::ClassKeyword,
    ]);
    assert_eq!(rendered(out), b"module\n  class".to_vec());
}

#[test]
fn blank_line_after_a_block_of_requires() {
    let out = push_all(vec![
        ConcreteLineToken::Indent { depth: 0 },
        ConcreteLineToken::AfterCallChain,
        part(b"require"),
        ConcreteLineToken::Space,
        part(b"'a'"),
        ConcreteLineToken::HardNewLine,
        ConcreteLineToken::Indent { depth: 0 },
        part(b"foo"),
        ConcreteLineToken::HardNewLine,
    ]);
    assert_eq!(rendered(out), b"require 'a'\n\nfoo\n".to_vec());
}

#[test]
fn blank_line_before_if_after_a_plain_line() {
    let out = push_all(vec![
        ConcreteLineToken::Indent { depth: 0 },
        part(b"x"),
        ConcreteLineToken::HardNewLine,
        ConcreteLineToken::Indent { depth: 0 },
        ConcreteLineToken::ConditionalKeyword { contents: b"if".to_vec() },
    ]);
    assert_eq!(rendered(out), b"x\n\nif".to_vec());
    let out = push_all(vec![
        ConcreteLineToken::Indent { depth: 0 },
        part(b"x"),
        ConcreteLineToken::HardNewLine,
        ConcreteLineToken::Indent { depth: 0 },
        ConcreteLineToken::ConditionalKeyword { contents: b"unless".to_vec() },
    ]);
    assert_eq!(rendered(out), b"x\nunless".to_vec());
}

#[test]
fn blank_line_between_end_and_a_comment() {
    let out = push_all(vec![
        ConcreteLineToken::DefKeyword,
        ConcreteLineToken::HardNewLine,
        ConcreteLineToken::End,
        ConcreteLineToken::HardNewLine,
        ConcreteLineToken::Comment { contents: b"# c".to_vec() },
    ]);
    assert_eq!(rendered(out), b"def\nend\n\n# c".to_vec());
}

#[test]
fn never_two_blank_lines() {
    let out = push_all(vec![
        part(b"a"),
        ConcreteLineToken::HardNewLine,
        ConcreteLineToken::HardNewLine,
        ConcreteLineToken::HardNewLine,
        ConcreteLineToken::HardNewLine,
        part(b"b"),
    ]);
    assert_eq!(rendered(out), b"a\n\nb".to_vec());
}

#[test]
fn blank_line_after_class_before_a_comment_is_dropped() {
    let out = push_all(vec![
        ConcreteLineToken::ClassKeyword,
        ConcreteLineToken::HardNewLine,
        ConcreteLineToken::HardNewLine,
        ConcreteLineToken::Comment { contents: b"# c".to_vec() },
    ]);
    // with fewer than four tokens before it, the comment is simply appended
    assert_eq!(rendered(out), b"class\n\n# c".to_vec());
    let out = push_all(vec![
        part(b"x"),
        ConcreteLineToken::ClassKeyword,
        ConcreteLineToken::HardNewLine,
        ConcreteLineToken::HardNewLine,
        ConcreteLineToken::Comment { contents: b"# c".to_vec() },
    ]);
    assert_eq!(rendered(out), b"xclass\n# c".to_vec());
}

#[test]
fn call_chain_markers_only_steer_indentation() {
    let ct = |t: ConcreteLineToken| ConcreteLineTokenAndTargets::ConcreteLineToken(t);
    let tokens = RenderQueueWriter::new(vec![
        clats_direct_part(b"a".to_vec()),
        ct(ConcreteLineToken::BeginCallChainIndent),
        cltats_hard_newline(),
        clats_indent(2),
        clats_direct_part(b".b".to_vec()),
        ct(ConcreteLineToken::EndCallChainIndent),
        cltats_hard_newline(),
    ])
    .into_tokens();
    assert!(!tokens.iter().any(|t| matches!(
        t,
        ConcreteLineToken::BeginCallChainIndent | ConcreteLineToken::EndCallChainIndent
    )));
    assert!(tokens.contains(&ConcreteLineToken::Indent { depth: 4 }));
}

#[test]
fn an_indent_inside_a_call_chain_gains_two_spaces() {
    let ct = |t: ConcreteLineToken| ConcreteLineTokenAndTargets::ConcreteLineToken(t);
    let tokens = RenderQueueWriter::new(vec![
        ct(ConcreteLineToken::BeginCallChainIndent),
        clats_indent(2),
        clats_direct_part(b"a".to_vec()),
        ct(ConcreteLineToken::EndCallChainIndent),
        cltats_hard_newline(),
        clats_indent(2),
    ])
    .into_tokens();
    assert_eq!(
        tokens,
        vec![
            ConcreteLineToken::Indent { depth: 4 },
            part(b"a"),
            ConcreteLineToken::HardNewLine,
            ConcreteLineToken::Indent { depth: 2 },
        ]
    );
}

#[test]
fn squiggly_heredoc_lines_follow_the_call_chain_indent() {
    let ct = |t: ConcreteLineToken| ConcreteLineTokenAndTargets::ConcreteLineToken(t);
    let tokens = RenderQueueWriter::new(vec![
        ct(ConcreteLineToken::BeginCallChainIndent),
        ct(ConcreteLineToken::HeredocStart { kind: HeredocKind::Squiggly, symbol: b"<<~A".to_vec() }),
        clats_direct_part(b"x\n\ny".to_vec()),
        ct(ConcreteLineToken::EndCallChainIndent),
    ])
    .into_tokens();
    assert!(tokens.contains(&part(b"  x\n\n  y")));
}

#[test]
fn laid_out_tokens_end_with_the_last_plain_token() {
    let tokens = RenderQueueWriter::new(vec![
        clats_direct_part(b"f".to_vec()),
        ConcreteLineTokenAndTargets::ConcreteLineToken(ConcreteLineToken::Delim { contents: b")".to_vec() }),
    ])
    .into_tokens();
    assert_eq!(tokens.last(), Some(&ConcreteLineToken::Delim { contents: b")".to_vec() }));
    assert!(RenderQueueWriter::new(vec![]).into_tokens().is_empty());
}

#[test]
fn breakable_garbage_before_the_last_token_is_cleared() {
    let mut i = Intermediary::new();
    i.push(ConcreteLineToken::Comma);
    i.push(ConcreteLineToken::Space);
    i.push(part(b""));
    i.push(ConcreteLineToken::Delim { contents: b"]".to_vec() });
    i.clear_breakable_garbage();
    assert_eq!(
        i.into_tokens(),
        vec![ConcreteLineToken::Comma, ConcreteLineToken::Delim { contents: b"]".to_vec() }]
    );

    let mut i = Intermediary::new();
    i.push(ConcreteLineToken::Comma);
    i.push(ConcreteLineToken::Space);
    i.push(ConcreteLineToken::HardNewLine);
    i.clear_breakable_garbage();
    assert_eq!(i.index_of_last_hard_newline, 1);
    assert_eq!(i.into_tokens(), vec![ConcreteLineToken::Comma, ConcreteLineToken::HardNewLine]);
}

#[test]
fn single_line_lengths_of_breakable_entries() {
    let mut be = BreakableEntry::new(BreakableDelims::for_brace_block(), &[FormattingContext::Main]);
    be.push(AbstractLineToken::ConcreteLineToken(part(b"x")));
    be.push(AbstractLineToken::SoftNewline(None));
    assert_eq!(be.single_line_len(), 5);

    let mut params = BreakableEntry::new(BreakableDelims::for_block_params(), &[FormattingContext::Main]);
    params.push(AbstractLineToken::ConcreteLineToken(part(b"x")));
    let mut blk = BreakableEntry::new(BreakableDelims::for_brace_block(), &[FormattingContext::Main]);
    blk.push(AbstractLineToken::BreakableEntry(params));
    blk.push(AbstractLineToken::ConcreteLineToken(part(b"body")));
    assert_eq!(blk.single_line_len_params_only(), 7);
    assert_eq!(blk.single_line_len(), 11);
}

#[test]
fn a_soft_newline_is_one_space_on_a_line() {
    let t = AbstractLineToken::SoftNewline(None);
    assert_eq!(t.single_line_len(), 1);
    let mut out = Vec::new();
    AbstractLineToken::SoftNewline(None).write_single_line(&mut out);
    assert_eq!(out.len(), 1);
    assert!(matches!(out[0], ConcreteLineTokenAndTargets::ConcreteLineToken(ConcreteLineToken::Space)));
}

#[test]
fn source_that_does_not_parse_is_a_syntax_error() {
    assert!(matches!(check_syntax(b"def foo("), Err(RichFormatError::SyntaxError)));
    assert!(matches!(check_syntax(b"a = [1, 2\n"), Err(RichFormatError::SyntaxError)));
    assert!(check_syntax(b"x = 1\nputs x\n").is_ok());
    assert!(check_syntax(b"").is_ok());
}

#[test]
fn an_array_that_fits_is_laid_out_on_one_line_without_its_trailing_space() {
    let mut be = BreakableEntry::new(BreakableDelims::for_array(), &[FormattingContext::Main]);
    be.push(AbstractLineToken::CollapsingNewLine(None));
    be.push(AbstractLineToken::SoftIndent { depth: 2 });
    be.push(AbstractLineToken::ConcreteLineToken(part(b"1")));
    be.push(AbstractLineToken::ConcreteLineToken(ConcreteLineToken::Comma));
    be.push(AbstractLineToken::SoftNewline(None));
    be.push(AbstractLineToken::SoftIndent { depth: 2 });
    be.push(AbstractLineToken::ConcreteLineToken(part(b"2")));
    be.push(AbstractLineToken::SoftNewline(None));
    be.push(AbstractLineToken::CollapsingNewLine(None));
    assert_eq!(
        write(vec![clats_direct_part(b"x = ".to_vec()), ConcreteLineTokenAndTargets::BreakableEntry(be)]),
        b"x = [1, 2]".to_vec()
    );
}
