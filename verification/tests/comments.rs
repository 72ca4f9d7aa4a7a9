use rubyfmt::comment_block::{CommentBlock, Merge};
use rubyfmt::file_comments::{FileComments, PrismComment};
use rubyfmt::line_tokens::ConcreteLineToken;

fn comment(line: i32, start: u32, text: &[u8]) -> PrismComment {
    PrismComment { line, start, text: text.to_vec() }
}

fn sample() -> FileComments {
    // line 1: "# a", line 2: "foo", line 3: "", line 4: "# b", line 5: "bar # c"
    let source = b"# a\nfoo\n\n# b\nbar # c  \n";
    let comments = vec![comment(1, 0, b"# a"), comment(4, 9, b"# b"), comment(5, 17, b"# c  ")];
    FileComments::from_prism_comments(comments, source, 5)
}

#[test]
fn from_prism_comments_splits_start_block_and_other_comments() {
    let fc = sample();
    let start = fc.start_of_file_contiguous_comment_lines.as_ref().unwrap();
    assert_eq!(start.span, 1..2);
    assert_eq!(start.comments, vec![b"# a".to_vec()]);
    assert_eq!(fc.other_comments, vec![(4, b"# b".to_vec()), (5, b"# c".to_vec())]);
    assert_eq!(fc.lines_with_ruby, vec![2, 5]);
    assert_eq!(fc.last_lineno, 5);
    assert_eq!(fc.comment_start_offsets, vec![0, 9, 17]);
    assert_eq!(fc.newline_offsets, vec![3, 7, 8, 12, 22]);
}

#[test]
fn contiguous_comments_at_start_form_one_block() {
    let source = b"# a\n# b\n# c\nx\n";
    let comments = vec![comment(1, 0, b"# a"), comment(2, 4, b"# b"), comment(3, 8, b"# c")];
    let fc = FileComments::from_prism_comments(comments, source, 4);
    let start = fc.start_of_file_contiguous_comment_lines.as_ref().unwrap();
    assert_eq!(start.span, 1..4);
    assert_eq!(start.comments.len(), 3);
    assert!(fc.other_comments.is_empty());
    assert_eq!(fc.lines_with_ruby, vec![4]);
}

#[test]
fn embedded_documents_hold_no_ruby() {
    let source = b"=begin\nfoo\n=end\nbar";
    let fc = FileComments::from_prism_comments(vec![], source, 4);
    assert_eq!(fc.lines_with_ruby, vec![4]);
    assert!(fc.is_empty_line(2));
    assert!(!fc.is_empty_line(4));
}

#[test]
fn last_line_without_newline_counts() {
    let fc = FileComments::from_prism_comments(vec![], b"a\n  b", 2);
    assert_eq!(fc.lines_with_ruby, vec![1, 2]);
}

#[test]
fn from_source_reads_the_parser_comments() {
    let source = b"# top\nx = 1 # trailing\n\n# lone\ny = 2\n";
    let fc = FileComments::from_source(source, 5).unwrap();
    let start = fc.start_of_file_contiguous_comment_lines.as_ref().unwrap();
    // A comment on line 2 continues the block that starts the file, even after code.
    assert_eq!(start.comments, vec![b"# top".to_vec(), b"# trailing".to_vec()]);
    assert_eq!(start.span, 1..3);
    assert_eq!(fc.other_comments, vec![(4, b"# lone".to_vec())]);
    assert_eq!(fc.lines_with_ruby, vec![2, 5]);
    assert_eq!(fc.comment_start_offsets, vec![0, 12, 24]);
}

#[test]
fn queries() {
    let fc = sample();
    assert!(fc.has_line(4));
    assert!(fc.has_line(5));
    assert!(!fc.has_line(1));
    assert!(!fc.has_line(3));
    assert!(fc.is_empty_line(3));
    assert!(fc.is_empty_line(4));
    assert!(!fc.is_empty_line(2));
    assert!(fc.has_comments_in_lines(4, 5));
    assert!(!fc.has_comments_in_lines(1, 4));
    assert!(fc.has_comment_in_offsets(5, 10));
    assert!(!fc.has_comment_in_offsets(10, 17));
    assert!(fc.has_comment_in_offsets(10, 18));
    assert!(fc.still_in_file(4));
    assert!(!fc.still_in_file(5));
}

#[test]
fn line_numbers_for_offsets() {
    let fc = sample();
    assert_eq!(fc.get_line_number_for_offset(0), 1);
    assert_eq!(fc.get_line_number_for_offset(3), 1);
    assert_eq!(fc.get_line_number_for_offset(4), 2);
    assert_eq!(fc.get_line_number_for_offset(8), 3);
    assert_eq!(fc.get_line_number_for_offset(9), 4);
    assert_eq!(fc.get_line_number_for_offset(100), 6);
}

#[test]
fn take_start_block_once() {
    let mut fc = sample();
    assert!(fc.take_start_of_file_contiguous_comment_lines().is_some());
    assert!(fc.take_start_of_file_contiguous_comment_lines().is_none());
}

#[test]
fn extract_comments_to_line_with_gaps() {
    let source = b"x\n\n# c\n# d\n\n\n# e\ny\n";
    let comments = vec![comment(3, 3, b"# c"), comment(4, 7, b"# d"), comment(7, 13, b"# e")];
    let mut fc = FileComments::from_prism_comments(comments, source, 8);
    let (block, last) = fc.extract_comments_to_line(1, 8).unwrap();
    assert_eq!(block.span, 3..9);
    assert_eq!(
        block.comments,
        vec![b"".to_vec(), b"# c".to_vec(), b"# d".to_vec(), b"".to_vec(), b"# e".to_vec()]
    );
    assert_eq!(last, 7);
    assert!(fc.other_comments.is_empty());
}

#[test]
fn extract_comments_to_line_adds_trailing_blank_line() {
    let source = b"x\n# c\n\n\ny\n";
    let mut fc = FileComments::from_prism_comments(vec![comment(2, 2, b"# c")], source, 5);
    let (block, last) = fc.extract_comments_to_line(1, 5).unwrap();
    assert_eq!(block.span, 2..6);
    assert_eq!(block.comments, vec![b"# c".to_vec(), b"".to_vec()]);
    assert_eq!(last, 5);
}

#[test]
fn extract_comments_to_line_stops_at_the_line() {
    let mut fc = sample();
    assert!(fc.extract_comments_to_line(1, 3).is_none());
    let (block, last) = fc.extract_comments_to_line(3, 4).unwrap();
    assert_eq!(block.span, 4..5);
    assert_eq!(block.comments, vec![b"# b".to_vec()]);
    assert_eq!(last, 4);
    assert_eq!(fc.other_comments, vec![(5, b"# c".to_vec())]);
}

#[test]
fn duplicate_keeps_everything() {
    let fc = sample();
    let copy = fc.duplicate();
    assert_eq!(copy.other_comments, fc.other_comments);
    assert_eq!(copy.lines_with_ruby, fc.lines_with_ruby);
    assert_eq!(copy.newline_offsets, fc.newline_offsets);
    assert_eq!(
        copy.start_of_file_contiguous_comment_lines.unwrap().comments,
        fc.start_of_file_contiguous_comment_lines.unwrap().comments
    );
}

#[test]
fn comment_block_tokens_and_spaces() {
    let block = CommentBlock::new(3..6, vec![b"# a".to_vec(), b"".to_vec(), b"# b".to_vec(), b"".to_vec()]);
    assert_eq!(block.line_count(), 2);
    let spaced = block.apply_spaces(2);
    assert_eq!(spaced.comments[0], b"  # a".to_vec());
    assert_eq!(spaced.comments[1], b"".to_vec());
    let tokens = spaced.into_line_tokens();
    assert_eq!(
        tokens,
        vec![
            ConcreteLineToken::Comment { contents: b"  # a".to_vec() },
            ConcreteLineToken::HardNewLine,
            ConcreteLineToken::HardNewLine,
            ConcreteLineToken::Comment { contents: b"  # b".to_vec() },
            ConcreteLineToken::HardNewLine,
            ConcreteLineToken::Comment { contents: b"".to_vec() },
            ConcreteLineToken::HardNewLine,
        ]
    );
}

#[test]
fn begin_blocks_are_not_indented() {
    let block = CommentBlock::new(1..2, vec![b"=begin\nx\n=end".to_vec()]);
    let spaced = block.apply_spaces(4);
    assert_eq!(spaced.comments[0], b"=begin\nx\n=end".to_vec());
    assert_eq!(spaced.line_count(), 3);
}

#[test]
fn comment_block_spans() {
    let mut block = CommentBlock::new(7..8, vec![b"# x".to_vec()]);
    assert!(block.is_trailing());
    assert!(block.has_comments());
    block.add_line(b"# y".to_vec());
    assert_eq!(block.following_line_number(), 9);
    assert!(!block.is_trailing());
    let mut pending: Option<CommentBlock> = None;
    pending.merge(block);
    pending.merge(CommentBlock::new(9..10, vec![b"# z".to_vec()]));
    let merged = pending.unwrap();
    assert_eq!(merged.span, 7..9);
    assert_eq!(merged.comments.len(), 3);
}
