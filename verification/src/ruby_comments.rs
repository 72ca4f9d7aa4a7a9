use std::collections::{BTreeMap, BTreeSet};
use std::ops::Range;
use vstd::prelude::*;

verus! {

/// A run of comment lines read from a file, and the lines it spans.
#[derive(Debug)]
pub struct RubyCommentBlock {
    pub span: Range<u64>,
    pub comments: Vec<String>,
}

/// The comments of a file by line, and the lines that hold code.
#[derive(Debug)]
pub struct RubyComments {
    pub start_of_file_contiguous_comment_lines: Option<RubyCommentBlock>,
    pub other_comments: BTreeMap<u64, String>,
    pub lines_with_ruby: BTreeSet<u64>,
    pub last_lineno: u64,
}

impl RubyCommentBlock {
    pub fn following_line_number(&self) -> (r: u64)
        ensures
            r == self.span.end,
    {
        self.span.end
    }

    pub fn add_line(&mut self, line: String)
        requires
            old(self).span.end < u64::MAX,
        ensures
            final(self).span.start == old(self).span.start,
            final(self).span.end == old(self).span.end + 1,
            final(self).comments@ == old(self).comments@.push(line),
    {
        self.span.end = self.span.end + 1;
        self.comments.push(line);
    }
}

impl Default for RubyComments {
    fn default() -> (r: Self)
        ensures
            r.start_of_file_contiguous_comment_lines is None,
            r.other_comments@ == Map::<u64, String>::empty(),
            r.lines_with_ruby@ == Set::<u64>::empty(),
            r.last_lineno == 0,
    {
        RubyComments {
            start_of_file_contiguous_comment_lines: None,
            other_comments: BTreeMap::new(),
            lines_with_ruby: BTreeSet::new(),
            last_lineno: 0,
        }
    }
}

impl RubyComments {
    /// Adds a comment: a comment on line 1 starts the block at the start of
    /// the file (which must come before any other comment), one on the line
    /// right after that block extends it, any other is listed by its line.
    pub fn push_comment(&mut self, line_number: u64, l: String)
        requires
            old(self).start_of_file_contiguous_comment_lines is None && line_number == 1 ==> old(
                self,
            ).other_comments@.len() == 0,
            old(self).start_of_file_contiguous_comment_lines matches Some(b) && b.span.end == line_number
                ==> line_number < u64::MAX,
        ensures
            final(self).lines_with_ruby == old(self).lines_with_ruby,
            final(self).last_lineno == old(self).last_lineno,
            match old(self).start_of_file_contiguous_comment_lines {
                None => if line_number == 1 {
                    &&& final(self).start_of_file_contiguous_comment_lines matches Some(b)
                    &&& b.span.start == 1 && b.span.end == 2 && b.comments@ == seq![l]
                    &&& final(self).other_comments@ == old(self).other_comments@
                } else {
                    &&& final(self).start_of_file_contiguous_comment_lines is None
                    &&& final(self).other_comments@ == old(self).other_comments@.insert(line_number, l)
                },
                Some(b) => if b.span.end == line_number {
                    &&& final(self).start_of_file_contiguous_comment_lines matches Some(nb)
                    &&& nb.span.start == b.span.start && nb.span.end == b.span.end + 1
                    &&& nb.comments@ == b.comments@.push(l)
                    &&& final(self).other_comments@ == old(self).other_comments@
                } else {
                    &&& final(self).start_of_file_contiguous_comment_lines == Some(b)
                    &&& final(self).other_comments@ == old(self).other_comments@.insert(line_number, l)
                },
            },
    {
        let ghost l2 = l;
        match self.start_of_file_contiguous_comment_lines.take() {
            None => {
                if line_number == 1 {
                    let mut comments: Vec<String> = Vec::new();
                    comments.push(l);
                    assert(comments@ =~= seq![l2]);
                    self.start_of_file_contiguous_comment_lines = Some(RubyCommentBlock { span: 1..2, comments });
                } else {
                    self.other_comments.insert(line_number, l);
                }
            },
            Some(mut sled) => {
                if sled.following_line_number() == line_number {
                    sled.add_line(l);
                    self.start_of_file_contiguous_comment_lines = Some(sled);
                } else {
                    self.start_of_file_contiguous_comment_lines = Some(sled);
                    self.other_comments.insert(line_number, l);
                }
            },
        }
    }
}

} // verus!
