use std::ops::Range;

use crate::line_tokens::{sat, ConcreteLineToken};
use crate::types::{ColNumber, LineNumber};
use crate::util::{indent_vec, spaces};
use vstd::prelude::*;

verus! {

/// A run of comment lines (empty entries stand for blank lines) and the
/// source lines it spans.
#[derive(Debug)]
pub struct CommentBlock {
    pub span: Range<LineNumber>,
    pub comments: Vec<Vec<u8>>,
}

/// The number of lines `BufRead::lines` yields for `s`: one per newline, and
/// one more for a last line without a newline.
pub open spec fn lines_count(s: Seq<u8>) -> nat
    decreases s.len(),
{
    if s.len() == 0 {
        0
    } else if s.last() == 10u8 {
        newline_count(s.drop_last()) + 1
    } else {
        newline_count(s) + 1
    }
}

pub open spec fn newline_count(s: Seq<u8>) -> nat
    decreases s.len(),
{
    if s.len() == 0 {
        0
    } else {
        newline_count(s.drop_last()) + if s.last() == 10u8 {
            1nat
        } else {
            0nat
        }
    }
}

/// The saturating sum of the line counts of the comments.
pub open spec fn comments_line_count(cs: Seq<Vec<u8>>) -> nat
    decreases cs.len(),
{
    if cs.len() == 0 {
        0
    } else {
        sat(comments_line_count(cs.drop_last()) + lines_count(cs.last()@))
    }
}

/// The saturating sum of the line counts of comments given by their bytes.
pub open spec fn view_line_count(cs: Seq<Seq<u8>>) -> nat
    decreases cs.len(),
{
    if cs.len() == 0 {
        0
    } else {
        sat(view_line_count(cs.drop_last()) + lines_count(cs.last()))
    }
}

pub proof fn lemma_view_line_count(cs: Seq<Vec<u8>>)
    ensures
        comments_line_count(cs) == view_line_count(cs.map_values(|c: Vec<u8>| c@)),
    decreases cs.len(),
{
    if cs.len() > 0 {
        lemma_view_line_count(cs.drop_last());
        assert(cs.drop_last().map_values(|c: Vec<u8>| c@) =~= cs.map_values(|c: Vec<u8>| c@).drop_last());
    }
}

/// The tokens for the comments from index `i` on, out of `n`: each comment
/// becomes itself and a newline; an empty entry (a blank line) becomes a
/// newline alone, except the last one, which keeps its empty comment so that
/// newline deduplication leaves it alone.
pub open spec fn comment_tokens(cs: Seq<Vec<u8>>, n: nat) -> Seq<ConcreteLineToken>
    decreases cs.len(),
{
    if cs.len() == 0 {
        Seq::empty()
    } else {
        let c = cs.last();
        let i = cs.len() - 1;
        let toks = if c@.len() == 0 && i != n - 1 {
            seq![ConcreteLineToken::HardNewLine]
        } else {
            seq![ConcreteLineToken::Comment { contents: c }, ConcreteLineToken::HardNewLine]
        };
        comment_tokens(cs.drop_last(), n) + toks
    }
}

/// The tokens for comments are comments and newlines.
pub proof fn lemma_comment_tokens_plain(cs: Seq<Vec<u8>>, n: nat)
    ensures
        forall|k: int| 0 <= k < comment_tokens(cs, n).len() ==> (#[trigger] comment_tokens(cs, n)[k] is Comment
            || comment_tokens(cs, n)[k] is HardNewLine),
    decreases cs.len(),
{
    if cs.len() > 0 {
        lemma_comment_tokens_plain(cs.drop_last(), n);
        let prev = comment_tokens(cs.drop_last(), n);
        let all = comment_tokens(cs, n);
        assert forall|k: int| 0 <= k < all.len() implies (#[trigger] all[k] is Comment || all[k] is HardNewLine) by {
            if k < prev.len() {
                assert(all[k] == prev[k]);
            }
        }
    }
}

/// Whether `c` starts with `=begin`.
pub open spec fn starts_with_begin(c: Seq<u8>) -> bool {
    c.len() >= 6 && c.take(6) == seq![61u8, 98u8, 101u8, 103u8, 105u8, 110u8]
}

/// A comment after indentation by `depth` spaces: blank entries and
/// `=begin` blocks are left alone.
pub open spec fn indented_comment(c: Seq<u8>, depth: nat) -> Seq<u8> {
    if depth == 0 || c.len() == 0 || starts_with_begin(c) {
        c
    } else {
        spaces(depth) + c
    }
}

fn starts_with_begin_bytes(c: &[u8]) -> (r: bool)
    ensures
        r == starts_with_begin(c@),
{
    let r = c.len() >= 6 && c[0] == 61u8 && c[1] == 98u8 && c[2] == 101u8 && c[3] == 103u8 && c[4]
        == 105u8 && c[5] == 110u8;
    proof {
        if c@.len() >= 6 {
            if r {
                assert(c@.take(6) =~= seq![61u8, 98u8, 101u8, 103u8, 105u8, 110u8]);
            }
            if starts_with_begin(c@) {
                assert(c@.take(6)[5] == c@[5]);
                assert(c@.take(6)[4] == c@[4]);
                assert(c@.take(6)[3] == c@[3]);
                assert(c@.take(6)[2] == c@[2]);
                assert(c@.take(6)[1] == c@[1]);
                assert(c@.take(6)[0] == c@[0]);
            }
        }
    }
    r
}

/// The number of lines `BufRead::lines` yields for `s`.
pub(crate) fn count_lines(s: &[u8]) -> (r: usize)
    ensures
        r == lines_count(s@),
{
    let mut n: usize = 0;
    let mut i: usize = 0;
    while i < s.len()
        invariant
            i <= s@.len(),
            n == newline_count(s@.take(i as int)),
            n <= i,
        decreases s@.len() - i,
    {
        assert(s@.take(i + 1).drop_last() =~= s@.take(i as int));
        if s[i] == 10u8 {
            n = n + 1;
        }
        i = i + 1;
    }
    assert(s@.take(i as int) =~= s@);
    if s.len() == 0 {
        0
    } else if s[s.len() - 1] == 10u8 {
        proof {
            assert(s@.drop_last().push(10u8) =~= s@);
            assert(newline_count(s@) == newline_count(s@.drop_last()) + 1);
        }
        n
    } else {
        proof {
            assert(s@.drop_last().push(s@.last()) =~= s@);
            lemma_newline_count_le(s@.drop_last());
        }
        n + 1
    }
}

proof fn lemma_newline_count_le(s: Seq<u8>)
    ensures
        newline_count(s) <= s.len(),
    decreases s.len(),
{
    if s.len() > 0 {
        lemma_newline_count_le(s.drop_last());
    }
}

impl CommentBlock {
    pub fn new(span: Range<LineNumber>, comments: Vec<Vec<u8>>) -> (r: Self)
        ensures
            r.span == span,
            r.comments == comments,
    {
        CommentBlock { span, comments }
    }

    /// A copy of the block.
    pub fn duplicate(&self) -> (r: Self)
        ensures
            r.span == self.span,
            r.comments@.map_values(|c: Vec<u8>| c@) == self.comments@.map_values(|c: Vec<u8>| c@),
    {
        let mut comments: Vec<Vec<u8>> = Vec::new();
        let mut i: usize = 0;
        while i < self.comments.len()
            invariant
                i <= self.comments@.len(),
                comments@.len() == i,
                forall|j: int| 0 <= j < i ==> (#[trigger] comments@[j])@ == self.comments@[j]@,
            decreases self.comments@.len() - i,
        {
            comments.push(crate::util::bytes_of(self.comments[i].as_slice()));
            i = i + 1;
        }
        assert(comments@.map_values(|c: Vec<u8>| c@) =~= self.comments@.map_values(|c: Vec<u8>| c@));
        CommentBlock { span: self.span.start..self.span.end, comments }
    }

    pub fn following_line_number(&self) -> (r: LineNumber)
        ensures
            r == self.span.end,
    {
        self.span.end
    }

    pub fn add_line(&mut self, line: Vec<u8>)
        requires
            old(self).span.end < LineNumber::MAX,
        ensures
            final(self).span.start == old(self).span.start,
            final(self).span.end == old(self).span.end + 1,
            final(self).comments@ == old(self).comments@.push(line),
    {
        self.span.end = self.span.end + 1;
        self.comments.push(line);
    }

    /// The comments as tokens (see `comment_tokens`).
    pub fn into_line_tokens(self) -> (r: Vec<ConcreteLineToken>)
        ensures
            r@ == comment_tokens(self.comments@, self.comments@.len()),
    {
        let ghost cs = self.comments@;
        let mut comments = self.comments;
        let len = comments.len();
        let mut out: Vec<ConcreteLineToken> = Vec::new();
        let mut i: usize = 0;
        while i < len
            invariant
                len == cs.len(),
                i <= len,
                comments@ == cs.skip(i as int),
                out@ == comment_tokens(cs.take(i as int), len as nat),
            decreases len - i,
        {
            let c = comments.remove(0);
            assert(c == cs[i as int]);
            assert(cs.skip(i as int).remove(0) =~= cs.skip(i + 1));
            assert(cs.take(i + 1).drop_last() =~= cs.take(i as int));
            if c.len() == 0 && i != len - 1 {
                out.push(ConcreteLineToken::HardNewLine);
            } else {
                out.push(ConcreteLineToken::Comment { contents: c });
                out.push(ConcreteLineToken::HardNewLine);
            }
            i = i + 1;
        }
        assert(cs.take(len as int) =~= cs);
        out
    }

    /// Indents every comment by `indent_depth` spaces, leaving blank entries
    /// and `=begin` blocks alone.
    pub fn apply_spaces(self, indent_depth: ColNumber) -> (r: Self)
        ensures
            r.span == self.span,
            r.comments@.len() == self.comments@.len(),
            forall|i: int|
                0 <= i < r.comments@.len() ==> #[trigger] r.comments@[i]@ == indented_comment(
                    self.comments@[i]@,
                    indent_depth as nat,
                ),
    {
        if indent_depth == 0 {
            return self;
        }
        let ghost cs = self.comments@;
        let span = self.span;
        let mut comments = self.comments;
        let len = comments.len();
        let mut out: Vec<Vec<u8>> = Vec::new();
        let mut i: usize = 0;
        while i < len
            invariant
                len == cs.len(),
                i <= len,
                indent_depth > 0,
                comments@ == cs.skip(i as int),
                out@.len() == i,
                forall|j: int|
                    0 <= j < i ==> #[trigger] out@[j]@ == indented_comment(cs[j]@, indent_depth as nat),
            decreases len - i,
        {
            let c = comments.remove(0);
            assert(c == cs[i as int]);
            assert(cs.skip(i as int).remove(0) =~= cs.skip(i + 1));
            if c.len() > 0 && !starts_with_begin_bytes(c.as_slice()) {
                let mut indented = indent_vec(indent_depth as usize);
                let ghost pre = indented@;
                let mut k: usize = 0;
                while k < c.len()
                    invariant
                        k <= c@.len(),
                        indented@ == pre + c@.take(k as int),
                    decreases c@.len() - k,
                {
                    indented.push(c[k]);
                    assert(c@.take(k + 1) =~= c@.take(k as int).push(c@[k as int]));
                    k = k + 1;
                }
                assert(c@.take(k as int) =~= c@);
                out.push(indented);
            } else {
                out.push(c);
            }
            i = i + 1;
        }
        CommentBlock { span, comments: out }
    }

    pub fn has_comments(&self) -> (r: bool)
        ensures
            r == (self.comments@.len() > 0),
    {
        self.comments.len() > 0
    }

    /// The number of lines the comments take up (saturating).
    pub fn line_count(&self) -> (r: usize)
        ensures
            r == comments_line_count(self.comments@),
    {
        let mut total: usize = 0;
        let mut i: usize = 0;
        while i < self.comments.len()
            invariant
                i <= self.comments@.len(),
                total == comments_line_count(self.comments@.take(i as int)),
            decreases self.comments@.len() - i,
        {
            assert(self.comments@.take(i + 1).drop_last() =~= self.comments@.take(i as int));
            total = total.saturating_add(count_lines(self.comments[i].as_slice()));
            i = i + 1;
        }
        assert(self.comments@.take(i as int) =~= self.comments@);
        total
    }

    /// A block that spans exactly one line.
    pub fn is_trailing(&self) -> (r: bool)
        requires
            self.span.start < LineNumber::MAX,
        ensures
            r == (self.span.start + 1 == self.span.end),
    {
        self.span.start + 1 == self.span.end
    }
}

pub trait Merge<Other = Self> {
    fn merge(&mut self, other: Other);
}

impl Merge<CommentBlock> for CommentBlock {
    /// Appends the other block's comments.
    fn merge(&mut self, other: CommentBlock)
        ensures
            final(self).span == old(self).span,
            final(self).comments@ == old(self).comments@ + other.comments@,
    {
        let mut other = other;
        self.comments.append(&mut other.comments);
    }
}

impl Merge<CommentBlock> for Option<CommentBlock> {
    /// Appends to the block that is there, or takes the other block.
    fn merge(&mut self, other: CommentBlock)
        ensures
            (*final(self)) is Some,
            (*old(self)) is None ==> *final(self) == Some(other),
            (*old(self)) matches Some(this) ==> (*final(self))->0.span == this.span
                && (*final(self))->0.comments@ == this.comments@ + other.comments@,
    {
        if let Some(this) = self {
            this.merge(other)
        } else {
            *self = Some(other)
        }
    }
}

} // verus!
