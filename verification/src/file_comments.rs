use crate::comment_block::{count_lines, lines_count, CommentBlock};
use crate::parser_state::{line_difference_requires_newline, requires_newline};
use crate::heredoc_string::{is_ascii_ws, trim_end, trimmed_len};
use crate::types::{LineNumber, SourceOffset};
use vstd::prelude::*;

verus! {

/// The comments of a source file, and which of its lines hold Ruby code.
#[derive(Debug)]
pub struct FileComments {
    pub start_of_file_contiguous_comment_lines: Option<CommentBlock>,
    /// The comments after the first block, ordered by line number.
    pub other_comments: Vec<(LineNumber, Vec<u8>)>,
    /// The lines that hold Ruby code (not comments, not blank), in order.
    pub lines_with_ruby: Vec<LineNumber>,
    pub last_lineno: LineNumber,
    /// The byte offsets where comments start, in order.
    pub comment_start_offsets: Vec<SourceOffset>,
    /// The byte offsets of the source's newlines, in order.
    pub newline_offsets: Vec<SourceOffset>,
}

/// A comment as the parser reports it: its first line, the offset where it
/// starts, and its text.
#[derive(Debug)]
pub struct PrismComment {
    pub line: i32,
    pub start: u32,
    pub text: Vec<u8>,
}

pub open spec fn increasing(s: Seq<LineNumber>) -> bool {
    forall|i: int, j: int| 0 <= i < j < s.len() ==> s[i] < s[j]
}

pub open spec fn increasing_offsets(s: Seq<SourceOffset>) -> bool {
    forall|i: int, j: int| 0 <= i < j < s.len() ==> s[i] < s[j]
}

/// The line numbers of a list of comments.
pub open spec fn comment_lines(cs: Seq<(LineNumber, Vec<u8>)>) -> Seq<LineNumber> {
    cs.map_values(|c: (LineNumber, Vec<u8>)| c.0)
}

/// The positions of `needle` in `s`, in increasing order.
pub open spec fn positions(s: Seq<u8>, needle: u8) -> Seq<int>
    decreases s.len(),
{
    if s.len() == 0 {
        Seq::empty()
    } else if s.last() == needle {
        positions(s.drop_last(), needle).push(s.len() - 1)
    } else {
        positions(s.drop_last(), needle)
    }
}

/// `s` without its leading ASCII whitespace.
pub open spec fn trim_start(s: Seq<u8>) -> Seq<u8>
    decreases s.len(),
{
    if s.len() > 0 && is_ascii_ws(s[0]) {
        trim_start(s.skip(1))
    } else {
        s
    }
}

pub open spec fn starts_with(s: Seq<u8>, prefix: Seq<u8>) -> bool {
    s.len() >= prefix.len() && s.take(prefix.len() as int) == prefix
}

pub open spec fn begin_marker() -> Seq<u8> {
    seq![61u8, 98u8, 101u8, 103u8, 105u8, 110u8]
}

pub open spec fn end_marker() -> Seq<u8> {
    seq![61u8, 101u8, 110u8, 100u8]
}

/// Whether a line holds Ruby code, and whether an `=begin` block is open
/// after it: blank lines, comment lines and the lines of `=begin`/`=end`
/// blocks hold none.
pub open spec fn spec_line_has_ruby(line: Seq<u8>, inside_embdoc: bool) -> (bool, bool) {
    let t = trim_start(line);
    if t.len() == 0 {
        (false, inside_embdoc)
    } else if starts_with(t, begin_marker()) {
        (false, true)
    } else if starts_with(t, end_marker()) {
        (false, false)
    } else if inside_embdoc {
        (false, true)
    } else {
        (t[0] != 35u8, false)
    }
}

/// Leading whitespace is dropped up to the first other byte.
proof fn lemma_trim_start_prefix(w: Seq<u8>, r: Seq<u8>)
    requires
        forall|i: int| 0 <= i < w.len() ==> crate::heredoc_string::is_ascii_ws(#[trigger] w[i]),
        r.len() > 0,
        !crate::heredoc_string::is_ascii_ws(r[0]),
    ensures
        trim_start(w + r) == r,
    decreases w.len(),
{
    if w.len() == 0 {
        assert(w + r =~= r);
    } else {
        assert((w + r).skip(1) =~= w.skip(1) + r);
        assert(crate::heredoc_string::is_ascii_ws(w[0]));
        lemma_trim_start_prefix(w.skip(1), r);
    }
}

/// Outside an `=begin` block, a line whose first byte after its leading
/// whitespace is `#` holds no Ruby code, however much whitespace comes
/// first; one whose first such byte is anything but `#` or `=` holds Ruby
/// code.
pub proof fn law_comment_lines_hold_no_ruby(w: Seq<u8>, c: u8, rest: Seq<u8>)
    requires
        forall|i: int| 0 <= i < w.len() ==> crate::heredoc_string::is_ascii_ws(#[trigger] w[i]),
        !crate::heredoc_string::is_ascii_ws(c),
    ensures
        c == 35u8 ==> !spec_line_has_ruby(w + seq![c] + rest, false).0,
        c != 35u8 && c != 61u8 ==> spec_line_has_ruby(w + seq![c] + rest, false).0,
        !spec_line_has_ruby(w + seq![c] + rest, false).1 || c == 61u8,
{
    let r = seq![c] + rest;
    lemma_trim_start_prefix(w, r);
    assert(w + seq![c] + rest =~= w + r);
    assert(r[0] == c);
    assert(begin_marker()[0] == 61u8);
    assert(end_marker()[0] == 61u8);
    if starts_with(r, begin_marker()) {
        assert(r.take(6)[0] == r[0]);
    }
    if starts_with(r, end_marker()) {
        assert(r.take(4)[0] == r[0]);
    }
}

/// `memchr::memchr_iter`: every position of `needle` in `haystack`, in
/// increasing order.
#[verifier::external_body]
fn memchr_positions(needle: u8, haystack: &[u8]) -> (r: Vec<usize>)
    ensures
        r@.len() == positions(haystack@, needle).len(),
        forall|i: int| 0 <= i < r@.len() ==> r@[i] as int == #[trigger] positions(haystack@, needle)[i],
{
    memchr::memchr_iter(needle, haystack).collect()
}

/// The comments `ruby_prism::parse` finds in `source`, in the order it
/// reports them: start line, start offset and text of each.
pub uninterp spec fn prism_comments_of(source: Seq<u8>) -> Seq<CommentView>;

/// `ruby_prism::parse(source).comments()`, each comment read as its start
/// line, its start offset and its text (`Comment::text`, the source bytes it
/// covers). What the parser finds is given a name, not stated.
#[verifier::external_body]
fn parse_comments(source: &[u8]) -> (r: Vec<PrismComment>)
    ensures
        comment_views(r@) == prism_comments_of(source@),
{
    let result = ruby_prism::parse(source);
    let mut out = Vec::new();
    for comment in result.comments() {
        let location = comment.location();
        out.push(PrismComment { line: location.start_line(), start: location.start(), text: comment.text().to_vec() });
    }
    out
}

/// Whether the comments are in order (see `comments_in_order`).
fn check_order(cs: &Vec<PrismComment>) -> (r: bool)
    ensures
        r == comments_in_order(comment_views(cs@)),
{
    let ghost v = comment_views(cs@);
    let mut i: usize = 0;
    while i < cs.len()
        invariant
            v == comment_views(cs@),
            i <= cs@.len(),
            forall|k: int| 0 <= k < i ==> #[trigger] v[k].0 >= 1,
            forall|a: int, b: int| 0 <= a < b < i ==> v[a].0 < v[b].0 && v[a].1 < v[b].1,
        decreases cs@.len() - i,
    {
        assert(v[i as int] == (cs@[i as int].line, cs@[i as int].start, cs@[i as int].text@));
        if cs[i].line < 1 {
            assert(v[i as int].0 < 1);
            return false;
        }
        if i > 0 {
            assert(v[i - 1] == (cs@[i - 1].line, cs@[i - 1].start, cs@[i - 1].text@));
            if cs[i - 1].line >= cs[i].line || cs[i - 1].start >= cs[i].start {
                assert(!(v[i - 1].0 < v[i as int].0 && v[i - 1].1 < v[i as int].1));
                return false;
            }
        }
        i = i + 1;
    }
    true
}

/// The number of leading ASCII whitespace bytes of `s`.
fn leading_ws(s: &[u8]) -> (r: usize)
    ensures
        r <= s@.len(),
        trim_start(s@) == s@.skip(r as int),
{
    let mut i: usize = 0;
    assert(s@.skip(0) =~= s@);
    while i < s.len() && (s[i] == 32u8 || s[i] == 9u8 || s[i] == 10u8 || s[i] == 12u8 || s[i] == 13u8)
        invariant
            i <= s@.len(),
            trim_start(s@) == trim_start(s@.skip(i as int)),
        decreases s@.len() - i,
    {
        assert(s@.skip(i as int).skip(1) =~= s@.skip(i + 1));
        i = i + 1;
    }
    i
}

fn bytes_start_with(s: &[u8], from: usize, prefix: &[u8]) -> (r: bool)
    requires
        from <= s@.len(),
    ensures
        r == starts_with(s@.skip(from as int), prefix@),
{
    if s.len() - from < prefix.len() {
        return false;
    }
    let mut k: usize = 0;
    while k < prefix.len()
        invariant
            from + prefix@.len() <= s@.len(),
            s@.len() == s.len(),
            k <= prefix@.len(),
            forall|j: int| 0 <= j < k ==> s@[from + j] == prefix@[j],
        decreases prefix@.len() - k,
    {
        assert(from + k < s@.len());
        if s[from + k] != prefix[k] {
            assert(s@.skip(from as int).take(prefix@.len() as int)[k as int] != prefix@[k as int]);
            return false;
        }
        k = k + 1;
    }
    assert(s@.skip(from as int).take(prefix@.len() as int) =~= prefix@);
    true
}

/// A comment block as its span and its lines.
pub type BlockView = (LineNumber, LineNumber, Seq<Seq<u8>>);

pub open spec fn block_view(b: CommentBlock) -> BlockView {
    (b.span.start, b.span.end, b.comments@.map_values(|c: Vec<u8>| c@))
}

pub open spec fn opt_block_view(b: Option<CommentBlock>) -> Option<BlockView> {
    match b {
        Some(b) => Some(block_view(b)),
        None => None,
    }
}

/// The comments of a file as the block at its start and the other comments.
pub type CommentsModel = (Option<BlockView>, Seq<(LineNumber, Seq<u8>)>);

/// Where a comment on `line` goes: a comment on line 1 starts the block at
/// the start of the file, a comment on the line right after that block
/// extends it, and any other comment is listed on its own.
pub open spec fn push_model(m: CommentsModel, line: LineNumber, text: Seq<u8>) -> CommentsModel {
    match m.0 {
        None => if line == 1 {
            (Some((1, 2, seq![text])), m.1)
        } else {
            (m.0, m.1.push((line, text)))
        },
        Some(b) => if b.1 == line {
            (Some((b.0, (b.1 + 1) as LineNumber, b.2.push(text))), m.1)
        } else {
            (m.0, m.1.push((line, text)))
        },
    }
}

/// Whether a comment on `line` may be added: it must come after the
/// comments already listed, and a block at the start of the file must come
/// before all other comments.
pub open spec fn push_ok(m: CommentsModel, line: LineNumber) -> bool {
    match m.0 {
        None => if line == 1 {
            m.1.len() == 0
        } else {
            m.1.len() == 0 || m.1.last().0 < line
        },
        Some(b) => if b.1 == line {
            line < LineNumber::MAX
        } else {
            m.1.len() == 0 || m.1.last().0 < line
        },
    }
}

/// A comment as its line, its start offset and its text.
pub type CommentView = (i32, u32, Seq<u8>);

pub open spec fn comment_views(cs: Seq<PrismComment>) -> Seq<CommentView> {
    cs.map_values(|c: PrismComment| (c.line, c.start, c.text@))
}

/// The model after adding the comments in order (texts trimmed at the end).
pub open spec fn push_all(cs: Seq<CommentView>) -> CommentsModel
    decreases cs.len(),
{
    if cs.len() == 0 {
        (None, Seq::empty())
    } else {
        push_model(push_all(cs.drop_last()), cs.last().0 as LineNumber, trim_end(cs.last().2))
    }
}

/// The comments come in the order of their lines and of their offsets, and
/// start on line 1 or later.
pub open spec fn comments_in_order(cs: Seq<CommentView>) -> bool {
    &&& forall|i: int| 0 <= i < cs.len() ==> #[trigger] cs[i].0 >= 1
    &&& forall|i: int, j: int| 0 <= i < j < cs.len() ==> cs[i].0 < cs[j].0 && cs[i].1 < cs[j].1
}

/// Where the line after the `k`-th newline starts.
pub open spec fn line_start_at(nls: Seq<int>, k: int) -> int {
    if k == 0 {
        0
    } else {
        nls[k - 1] + 1
    }
}

/// The lines with Ruby code among the first `k` lines that end in a newline,
/// and whether an `=begin` block is open after them.
pub open spec fn ruby_scan(s: Seq<u8>, nls: Seq<int>, k: nat) -> (Seq<LineNumber>, bool)
    decreases k,
{
    if k == 0 {
        (Seq::empty(), false)
    } else {
        let prev = ruby_scan(s, nls, (k - 1) as nat);
        let line = s.subrange(line_start_at(nls, k - 1), nls[k - 1]);
        let step = spec_line_has_ruby(line, prev.1);
        (if step.0 {
            prev.0.push(k as LineNumber)
        } else {
            prev.0
        }, step.1)
    }
}

/// The lines of `s` (counted from 1) that hold Ruby code.
pub open spec fn ruby_lines(s: Seq<u8>) -> Seq<LineNumber> {
    let nls = positions(s, 10u8);
    let scanned = ruby_scan(s, nls, nls.len());
    let start = line_start_at(nls, nls.len() as int);
    if start < s.len() && spec_line_has_ruby(s.subrange(start, s.len() as int), scanned.1).0 {
        scanned.0.push((nls.len() + 1) as LineNumber)
    } else {
        scanned.0
    }
}

/// The positions of a byte are increasing and inside the sequence.
pub proof fn lemma_positions(s: Seq<u8>, needle: u8)
    ensures
        positions(s, needle).len() <= s.len(),
        forall|i: int| 0 <= i < positions(s, needle).len() ==> i <= #[trigger] positions(s, needle)[i] < s.len()
            && s[positions(s, needle)[i]] == needle,
        forall|i: int, j: int| 0 <= i < j < positions(s, needle).len() ==> positions(s, needle)[i] < positions(s, needle)[j],
    decreases s.len(),
{
    if s.len() > 0 {
        lemma_positions(s.drop_last(), needle);
        let p = positions(s.drop_last(), needle);
        assert forall|i: int| 0 <= i < p.len() implies s[p[i]] == needle by {
            assert(s.drop_last()[p[i]] == s[p[i]]);
        }
    }
}

/// The last line a comment starting on `line` with text `c` covers
/// (saturating at the ends of the line numbers).
pub open spec fn comment_last_line(line: LineNumber, c: Seq<u8>) -> LineNumber {
    let end = line + lines_count(c);
    if end > LineNumber::MAX {
        (LineNumber::MAX - 1) as LineNumber
    } else if end == 0 {
        0
    } else {
        (end - 1) as LineNumber
    }
}

/// The entries for a run of comments, with a blank entry wherever a line is
/// skipped between two of them, and the last line the run covers.
pub open spec fn comment_run(cs: Seq<(LineNumber, Seq<u8>)>) -> (Seq<Seq<u8>>, Option<LineNumber>)
    decreases cs.len(),
{
    if cs.len() == 0 {
        (Seq::empty(), None)
    } else {
        let prev = comment_run(cs.drop_last());
        let c = cs.last();
        let gap = match prev.1 {
            Some(l) => requires_newline(c.0 as int, l as int),
            None => false,
        };
        ((if gap {
            prev.0.push(Seq::empty())
        } else {
            prev.0
        }).push(c.1), Some(comment_last_line(c.0, c.1)))
    }
}

/// The number of leading comments on or before `line`.
pub open spec fn count_through(cs: Seq<(LineNumber, Seq<u8>)>, line: LineNumber) -> nat
    decreases cs.len(),
{
    if cs.len() == 0 || cs[0].0 > line {
        0
    } else {
        1 + count_through(cs.skip(1), line)
    }
}

/// What `extract_comments_to_line` hands out for the comments `cs` (their
/// first one on or before `line_number`): a block from the first comment's
/// line through `line_number`, led by a blank entry when a line was skipped
/// since `starting_line_number`, ended by one when the comments stop more
/// than a line before `line_number`; and the last line covered.
pub open spec fn extracted(cs: Seq<(LineNumber, Seq<u8>)>, starting_line_number: LineNumber, line_number: LineNumber) -> (BlockView, LineNumber) {
    let run = comment_run(cs.take(count_through(cs, line_number) as int));
    let lead: Seq<Seq<u8>> = if requires_newline(cs[0].0 as int, starting_line_number as int) {
        seq![Seq::empty()]
    } else {
        Seq::empty()
    };
    let last = run.1.unwrap();
    if line_number > last + 1 {
        ((cs[0].0, (line_number + 1) as LineNumber, (lead + run.0).push(Seq::empty())), line_number)
    } else {
        ((cs[0].0, (line_number + 1) as LineNumber, lead + run.0), last)
    }
}

proof fn lemma_count_through(cs: Seq<(LineNumber, Seq<u8>)>, line: LineNumber, idx: int)
    requires
        0 <= idx <= cs.len(),
        forall|i: int| 0 <= i < idx ==> #[trigger] cs[i].0 <= line,
        forall|i: int| idx <= i < cs.len() ==> #[trigger] cs[i].0 > line,
    ensures
        count_through(cs, line) == idx,
    decreases cs.len(),
{
    if cs.len() > 0 && idx > 0 {
        assert forall|i: int| 0 <= i < idx - 1 implies #[trigger] cs.skip(1)[i].0 <= line by {
            assert(cs.skip(1)[i] == cs[i + 1]);
        }
        assert forall|i: int| idx - 1 <= i < cs.skip(1).len() implies #[trigger] cs.skip(1)[i].0 > line by {
            assert(cs.skip(1)[i] == cs[i + 1]);
        }
        lemma_count_through(cs.skip(1), line, idx - 1);
    }
}

/// After taking out the comments through `line`, every comment left comes
/// after `line`, and every comment taken out was on or before it.
pub proof fn law_extracted_comments_are_gone(cs: Seq<(LineNumber, Seq<u8>)>, line: LineNumber)
    requires
        forall|i: int, j: int| 0 <= i < j < cs.len() ==> cs[i].0 < cs[j].0,
    ensures
        count_through(cs, line) <= cs.len(),
        forall|i: int|
            0 <= i < cs.skip(count_through(cs, line) as int).len() ==> #[trigger] cs.skip(
                count_through(cs, line) as int,
            )[i].0 > line,
        forall|i: int| 0 <= i < count_through(cs, line) ==> #[trigger] cs[i].0 <= line,
    decreases cs.len(),
{
    if cs.len() > 0 && cs[0].0 <= line {
        let t = cs.skip(1);
        assert forall|i: int, j: int| 0 <= i < j < t.len() implies t[i].0 < t[j].0 by {
            assert(t[i] == cs[i + 1]);
            assert(t[j] == cs[j + 1]);
        }
        law_extracted_comments_are_gone(t, line);
        let n = count_through(t, line);
        assert(cs.skip((n + 1) as int) =~= t.skip(n as int));
        assert forall|i: int| 0 <= i < n + 1 implies #[trigger] cs[i].0 <= line by {
            if i > 0 {
                assert(cs[i] == t[i - 1]);
            }
        }
    } else if cs.len() > 0 {
        assert(cs.skip(0) =~= cs);
        assert forall|i: int| 0 <= i < cs.len() implies #[trigger] cs[i].0 > line by {
            if i > 0 {
                assert(cs[0].0 < cs[i].0);
            }
        }
    }
}

/// Comments on the lines 1, 2, ..., n, one after the other, form a single
/// block at the start of the file and leave no other comment.
pub proof fn law_leading_comment_lines_form_one_block(cs: Seq<CommentView>)
    requires
        cs.len() > 0,
        forall|i: int| 0 <= i < cs.len() ==> #[trigger] cs[i].0 == i + 1,
    ensures
        push_all(cs).0 == Some(
            (1 as LineNumber, (cs.len() + 1) as LineNumber, cs.map_values(|c: CommentView| trim_end(c.2))),
        ),
        push_all(cs).1.len() == 0,
    decreases cs.len(),
{
    if cs.len() > 1 {
        let p = cs.drop_last();
        assert forall|i: int| 0 <= i < p.len() implies #[trigger] p[i].0 == i + 1 by {
            assert(p[i] == cs[i]);
        }
        law_leading_comment_lines_form_one_block(p);
        assert(cs.last().0 == cs.len());
        assert(cs.last().0 as LineNumber == (p.len() + 1) as LineNumber);
        assert(push_all(cs) == push_model(push_all(p), cs.last().0 as LineNumber, trim_end(cs.last().2)));
        assert(cs.map_values(|c: CommentView| trim_end(c.2)) =~= p.map_values(|c: CommentView| trim_end(c.2)).push(
            trim_end(cs.last().2),
        ));
    } else {
        assert(cs[0].0 == 1);
        assert(cs.drop_last().len() == 0);
        assert(push_all(cs.drop_last()) == (None::<BlockView>, Seq::<(LineNumber, Seq<u8>)>::empty()));
        assert(push_all(cs) == push_model(push_all(cs.drop_last()), cs.last().0 as LineNumber, trim_end(cs.last().2)));
        assert(cs.map_values(|c: CommentView| trim_end(c.2)) =~= seq![trim_end(cs[0].2)]);
    }
}

/// `r` is the line (counted from 1) of the byte at `offset`, given the
/// offsets `nls` of the newlines: one more than the newlines before it.
pub open spec fn is_line_of_offset(nls: Seq<SourceOffset>, offset: SourceOffset, r: int) -> bool {
    &&& 1 <= r <= nls.len() + 1
    &&& forall|i: int| 0 <= i < r - 1 ==> #[trigger] nls[i] < offset
    &&& forall|i: int| r - 1 <= i < nls.len() ==> #[trigger] nls[i] >= offset
}

/// How many of the newlines at `nls` come before `offset`.
pub open spec fn newlines_before(nls: Seq<SourceOffset>, offset: SourceOffset) -> nat
    decreases nls.len(),
{
    if nls.len() == 0 {
        0
    } else {
        newlines_before(nls.drop_last(), offset) + if nls.last() < offset {
            1nat
        } else {
            0nat
        }
    }
}

/// The line of a byte is one more than the newlines before it.
pub proof fn lemma_line_of_offset_counts(nls: Seq<SourceOffset>, offset: SourceOffset, r: int)
    requires
        is_line_of_offset(nls, offset, r),
    ensures
        r == newlines_before(nls, offset) + 1,
    decreases nls.len(),
{
    if nls.len() > 0 {
        let d = nls.drop_last();
        let n = nls.len() - 1;
        if nls[n] < offset {
            assert(r - 1 == nls.len());
            assert forall|i: int| 0 <= i < r - 2 implies #[trigger] d[i] < offset by {
                assert(d[i] == nls[i]);
            }
            lemma_line_of_offset_counts(d, offset, r - 1);
        } else {
            assert(r - 1 <= n);
            assert forall|i: int| 0 <= i < r - 1 implies #[trigger] d[i] < offset by {
                assert(d[i] == nls[i]);
            }
            assert forall|i: int| r - 1 <= i < d.len() implies #[trigger] d[i] >= offset by {
                assert(d[i] == nls[i]);
            }
            lemma_line_of_offset_counts(d, offset, r);
        }
    }
}

/// A byte further on is never on an earlier line.
pub proof fn law_line_numbers_follow_offsets(nls: Seq<SourceOffset>, a: SourceOffset, b: SourceOffset, ra: int, rb: int)
    requires
        increasing_offsets(nls),
        a <= b,
        is_line_of_offset(nls, a, ra),
        is_line_of_offset(nls, b, rb),
    ensures
        ra <= rb,
{
    if ra > rb {
        assert(nls[rb - 1] >= b);
        assert(nls[rb - 1] < a);
    }
}

impl Default for FileComments {
    fn default() -> (r: Self)
        ensures
            r.start_of_file_contiguous_comment_lines is None,
            r.other_comments@.len() == 0,
            r.lines_with_ruby@.len() == 0,
            r.last_lineno == 0,
            r.comment_start_offsets@.len() == 0,
            r.newline_offsets@.len() == 0,
    {
        FileComments {
            start_of_file_contiguous_comment_lines: None,
            other_comments: Vec::new(),
            lines_with_ruby: Vec::new(),
            last_lineno: 0,
            comment_start_offsets: Vec::new(),
            newline_offsets: Vec::new(),
        }
    }
}

impl FileComments {
    /// Collects the comments of `source` and the lines that hold Ruby code.
    /// `comments` are the parser's comments, in order; `end_line` is the last
    /// line of the program.
    pub fn from_prism_comments(comments: Vec<PrismComment>, source: &[u8], end_line: LineNumber) -> (r:
        FileComments)
        requires
            comments_in_order(comment_views(comments@)),
            source@.len() + 1 < usize::MAX,
        ensures
            r.wf(),
            r.model() == push_all(comment_views(comments@)),
            r.lines_with_ruby@ == ruby_lines(source@),
            r.last_lineno == end_line,
            r.comment_start_offsets@ == comments@.map_values(|c: PrismComment| c.start as SourceOffset),
            r.newline_offsets@.len() == positions(source@, 10u8).len(),
            forall|i: int| 0 <= i < r.newline_offsets@.len() ==> r.newline_offsets@[i] as int
                == #[trigger] positions(source@, 10u8)[i],
    {
        let lines_with_ruby = Self::ruby_line_numbers(source);
        assert(positions(source@, 10u8).len() <= source@.len()) by {
            lemma_positions(source@, 10u8);
        }
        let nls = memchr_positions(10u8, source);
        proof {
            lemma_positions(source@, 10u8);
        }
        let ghost cs = comments@;
        let total = comments.len();
        let mut file_comments = FileComments::default();
        let mut rest = comments;
        let mut k: usize = 0;
        assert(cs.take(0) =~= Seq::<PrismComment>::empty());
        while rest.len() > 0
            invariant
                rest@ == cs.skip(k as int),
                k <= cs.len(),
                cs.len() == total,
                comments_in_order(comment_views(cs)),
                file_comments.wf(),
                file_comments.model() == push_all(comment_views(cs.take(k as int))),
                file_comments.lines_with_ruby@.len() == 0,
                file_comments.newline_offsets@.len() == 0,
                file_comments.comment_start_offsets@ == cs.take(k as int).map_values(
                    |c: PrismComment| c.start as SourceOffset,
                ),
                k == 0 ==> file_comments.model().1.len() == 0 && file_comments.model().0 is None,
                k > 0 ==> forall|i: int|
                    0 <= i < file_comments.model().1.len() ==> #[trigger] file_comments.model().1[i].0
                        <= cs[k - 1].line,
                k > 0 ==> (file_comments.model().0 matches Some(b) ==> b.1 <= cs[k - 1].line + 1),
            decreases rest@.len(),
        {
            let c = rest.remove(0);
            assert(cs.skip(k as int).remove(0) =~= cs.skip(k + 1));
            assert(c == cs[k as int]);
            assert(comment_views(cs)[k as int] == (c.line, c.start, c.text@));
            assert(comment_views(cs)[k as int].0 >= 1);
            let line = c.line as LineNumber;
            let start = c.start as SourceOffset;
            let mut text = c.text;
            let n = trimmed_len(text.as_slice());
            text.truncate(n);
            let ghost m = file_comments.model();
            proof {
                assert(comment_views(cs)[k as int] == (c.line, c.start, c.text@));
                if k > 0 {
                    assert(comment_views(cs)[k - 1] == (cs[k - 1].line, cs[k - 1].start, cs[k - 1].text@));
                    assert(cs[k - 1].line < cs[k as int].line);
                    if m.1.len() > 0 {
                        assert(m.1[m.1.len() - 1].0 <= cs[k - 1].line);
                    }
                }
            }
            file_comments.push_comment(line, text);
            let ghost offs = file_comments.comment_start_offsets@;
            file_comments.comment_start_offsets.push(start);
            proof {
                assert(cs.take(k + 1).drop_last() =~= cs.take(k as int));
                assert(comment_views(cs.take(k + 1)).drop_last() =~= comment_views(cs.take(k as int)));
                let mapped = cs.take(k + 1).map_values(|c: PrismComment| c.start as SourceOffset);
                assert(file_comments.comment_start_offsets@ =~= mapped);
                let o = file_comments.comment_start_offsets@;
                assert forall|i: int, j: int| 0 <= i < j < o.len() implies o[i] < o[j] by {
                    assert(o[i] == cs[i].start as SourceOffset);
                    assert(o[j] == cs[j].start as SourceOffset);
                    assert(comment_views(cs)[i].1 == cs[i].start);
                    assert(comment_views(cs)[j].1 == cs[j].start);
                }
                let m2 = file_comments.model();
                assert forall|i: int| 0 <= i < m2.1.len() implies #[trigger] m2.1[i].0 <= cs[k as int].line by {
                    if i < m.1.len() {
                        assert(m2.1[i] == m.1[i]);
                    }
                }
            }
            k = k + 1;
        }
        assert(cs.take(k as int) =~= cs);
        file_comments.lines_with_ruby = lines_with_ruby;
        file_comments.last_lineno = end_line;
        file_comments.newline_offsets = nls;
        proof {
            let v = file_comments.newline_offsets@;
            let p = positions(source@, 10u8);
            assert forall|i: int, j: int| 0 <= i < j < v.len() implies v[i] < v[j] by {
                assert(v[i] as int == p[i]);
                assert(v[j] as int == p[j]);
            }
        }
        file_comments
    }

    /// Parses `source` for its comments and collects them as
    /// `from_prism_comments` does; `None` when the parser reports them out of
    /// order, or the source fills the address space.
    pub fn from_source(source: &[u8], end_line: LineNumber) -> (r: Option<FileComments>)
        ensures
            r is Some <==> comments_in_order(prism_comments_of(source@)) && source@.len() + 1 < usize::MAX,
            r matches Some(fc) ==> {
                &&& fc.wf()
                &&& fc.model() == push_all(prism_comments_of(source@))
                &&& fc.lines_with_ruby@ == ruby_lines(source@)
                &&& fc.last_lineno == end_line
                &&& fc.comment_start_offsets@ == prism_comments_of(source@).map_values(
                    |c: CommentView| c.1 as SourceOffset,
                )
                &&& fc.newline_offsets@.len() == positions(source@, 10u8).len()
                &&& forall|i: int|
                    0 <= i < fc.newline_offsets@.len() ==> fc.newline_offsets@[i] as int == #[trigger] positions(
                        source@,
                        10u8,
                    )[i]
            },
    {
        let comments = parse_comments(source);
        if source.len() >= usize::MAX - 1 || !check_order(&comments) {
            return None;
        }
        let ghost cs = comments@;
        let fc = Self::from_prism_comments(comments, source, end_line);
        assert(fc.comment_start_offsets@ =~= prism_comments_of(source@).map_values(
            |c: CommentView| c.1 as SourceOffset,
        ));
        Some(fc)
    }

    /// A copy of the comments.
    pub fn duplicate(&self) -> (r: FileComments)
        ensures
            r.model() == self.model(),
            r.lines_with_ruby@ == self.lines_with_ruby@,
            r.last_lineno == self.last_lineno,
            r.comment_start_offsets@ == self.comment_start_offsets@,
            r.newline_offsets@ == self.newline_offsets@,
    {
        let start = match &self.start_of_file_contiguous_comment_lines {
            Some(b) => Some(b.duplicate()),
            None => None,
        };
        let mut others: Vec<(LineNumber, Vec<u8>)> = Vec::new();
        let mut i: usize = 0;
        while i < self.other_comments.len()
            invariant
                i <= self.other_comments@.len(),
                others@.len() == i,
                forall|j: int| 0 <= j < i ==> (#[trigger] others@[j]).0 == self.other_comments@[j].0
                    && others@[j].1@ == self.other_comments@[j].1@,
            decreases self.other_comments@.len() - i,
        {
            let ln = self.other_comments[i].0;
            let text = crate::util::bytes_of(self.other_comments[i].1.as_slice());
            others.push((ln, text));
            i = i + 1;
        }
        assert(others@.map_values(|c: (LineNumber, Vec<u8>)| (c.0, c.1@)) =~= self.comments_view());
        FileComments {
            start_of_file_contiguous_comment_lines: start,
            other_comments: others,
            lines_with_ruby: self.lines_with_ruby.clone(),
            last_lineno: self.last_lineno,
            comment_start_offsets: self.comment_start_offsets.clone(),
            newline_offsets: self.newline_offsets.clone(),
        }
    }

    /// The lines of `source` (counted from 1) that hold Ruby code.
    fn ruby_line_numbers(source: &[u8]) -> (r: Vec<LineNumber>)
        requires
            source@.len() < usize::MAX,
        ensures
            r@ == ruby_lines(source@),
            increasing(r@),
    {
        let nls = memchr_positions(10u8, source);
        let ghost p = positions(source@, 10u8);
        proof {
            lemma_positions(source@, 10u8);
        }
        let mut lines_with_ruby: Vec<LineNumber> = Vec::new();
        let mut line_start: usize = 0;
        let mut inside_embdoc = false;
        let mut j: usize = 0;
        while j < nls.len()
            invariant
                p == positions(source@, 10u8),
                source@.len() < usize::MAX,
                source@.len() == source.len(),
                nls@.len() == p.len(),
                forall|i: int| 0 <= i < nls@.len() ==> nls@[i] as int == #[trigger] p[i],
                p.len() <= source@.len(),
                forall|i: int| 0 <= i < p.len() ==> i <= #[trigger] p[i] < source@.len(),
                forall|i: int, k: int| 0 <= i < k < p.len() ==> p[i] < p[k],
                j <= nls@.len(),
                line_start as int == line_start_at(p, j as int),
                (lines_with_ruby@, inside_embdoc) == ruby_scan(source@, p, j as nat),
                increasing(lines_with_ruby@),
                forall|i: int| 0 <= i < lines_with_ruby@.len() ==> #[trigger] lines_with_ruby@[i] <= j,
            decreases nls@.len() - j,
        {
            let i = nls[j];
            proof {
                assert(p[j as int] == i);
                if j > 0 {
                    assert(p[j - 1] < p[j as int]);
                }
            }
            let line = vstd::slice::slice_subrange(source, line_start, i);
            let ghost before = lines_with_ruby@;
            if Self::line_has_ruby(line, &mut inside_embdoc) {
                lines_with_ruby.push(j as u64 + 1);
            }
            proof {
                let l = lines_with_ruby@;
                assert forall|a: int, b: int| 0 <= a < b < l.len() implies l[a] < l[b] by {
                    if b == l.len() - 1 && l.len() > before.len() {
                        assert(l[a] == before[a]);
                        assert(before[a] <= j);
                    } else {
                        assert(l[a] == before[a]);
                        assert(l[b] == before[b]);
                    }
                }
                assert forall|a: int| 0 <= a < l.len() implies #[trigger] l[a] <= j + 1 by {
                    if a < before.len() {
                        assert(l[a] == before[a]);
                    }
                }
            }
            line_start = i + 1;
            j = j + 1;
        }
        if line_start < source.len() {
            let line = vstd::slice::slice_subrange(source, line_start, source.len());
            let ghost before = lines_with_ruby@;
            if Self::line_has_ruby(line, &mut inside_embdoc) {
                proof {
                    assert(p.len() < source@.len());
                }
                lines_with_ruby.push(nls.len() as u64 + 1);
                proof {
                    let l = lines_with_ruby@;
                    assert forall|a: int, b: int| 0 <= a < b < l.len() implies l[a] < l[b] by {
                        assert(l[a] == before[a]);
                        if b < l.len() - 1 {
                            assert(l[b] == before[b]);
                        }
                    }
                }
            }
        }
        lines_with_ruby
    }

    /// The comments after the first block, as line numbers and texts.
    pub open spec fn comments_view(&self) -> Seq<(LineNumber, Seq<u8>)> {
        self.other_comments@.map_values(|c: (LineNumber, Vec<u8>)| (c.0, c.1@))
    }

    /// The block at the start of the file and the other comments.
    pub open spec fn model(&self) -> CommentsModel {
        (opt_block_view(self.start_of_file_contiguous_comment_lines), self.comments_view())
    }

    /// The orderings the queries rely on.
    pub open spec fn wf(&self) -> bool {
        &&& increasing(comment_lines(self.other_comments@))
        &&& increasing(self.lines_with_ruby@)
        &&& increasing_offsets(self.comment_start_offsets@)
        &&& increasing_offsets(self.newline_offsets@)
        &&& self.newline_offsets@.len() + 1 < usize::MAX
    }

    /// Adds a comment: see `push_model`.
    fn push_comment(&mut self, line_number: LineNumber, l: Vec<u8>)
        requires
            old(self).wf(),
            push_ok(old(self).model(), line_number),
        ensures
            final(self).wf(),
            final(self).model() == push_model(old(self).model(), line_number, l@),
            final(self).lines_with_ruby == old(self).lines_with_ruby,
            final(self).last_lineno == old(self).last_lineno,
            final(self).comment_start_offsets == old(self).comment_start_offsets,
            final(self).newline_offsets == old(self).newline_offsets,
    {
        let ghost m = old(self).model();
        let ghost lv = l@;
        let mut start = self.start_of_file_contiguous_comment_lines.take();
        match start {
            None => {
                if line_number == 1 {
                    let mut v: Vec<Vec<u8>> = Vec::new();
                    v.push(l);
                    let b = CommentBlock::new(1..2, v);
                    assert(block_view(b).2 =~= seq![lv]);
                    self.start_of_file_contiguous_comment_lines = Some(b);
                } else {
                    self.push_other(line_number, l);
                }
            },
            Some(mut sled) => {
                if sled.following_line_number() == line_number {
                    let ghost before = sled.comments@;
                    sled.add_line(l);
                    assert(block_view(sled).2 =~= before.map_values(|c: Vec<u8>| c@).push(lv));
                    self.start_of_file_contiguous_comment_lines = Some(sled);
                } else {
                    self.start_of_file_contiguous_comment_lines = Some(sled);
                    self.push_other(line_number, l);
                }
            },
        }
    }

    fn push_other(&mut self, line_number: LineNumber, l: Vec<u8>)
        requires
            increasing(comment_lines(old(self).other_comments@)),
            old(self).other_comments@.len() == 0 || old(self).other_comments@.last().0 < line_number,
        ensures
            increasing(comment_lines(final(self).other_comments@)),
            final(self).comments_view() == old(self).comments_view().push((line_number, l@)),
            final(self).start_of_file_contiguous_comment_lines == old(self).start_of_file_contiguous_comment_lines,
            final(self).lines_with_ruby == old(self).lines_with_ruby,
            final(self).last_lineno == old(self).last_lineno,
            final(self).comment_start_offsets == old(self).comment_start_offsets,
            final(self).newline_offsets == old(self).newline_offsets,
    {
        let ghost old_ls = comment_lines(self.other_comments@);
        self.other_comments.push((line_number, l));
        let ghost ls = comment_lines(self.other_comments@);
        assert forall|i: int, j: int| 0 <= i < j < ls.len() implies ls[i] < ls[j] by {
            if j == ls.len() - 1 && i < j {
                assert(old_ls[old_ls.len() - 1] == old(self).other_comments@.last().0);
                if i < old_ls.len() - 1 {
                    assert(old_ls[i] < old_ls[old_ls.len() - 1]);
                }
                assert(ls[i] == old_ls[i]);
            } else {
                assert(ls[i] == old_ls[i]);
                assert(ls[j] == old_ls[j]);
            }
        }
        assert(self.comments_view() =~= old(self).comments_view().push((line_number, l@)));
    }

    /// Takes out the comments on or before `line_number` as one block (see
    /// `extracted`), or hands out nothing when the first comment left comes
    /// later.
    pub fn extract_comments_to_line(&mut self, starting_line_number: LineNumber, line_number: LineNumber) -> (r:
        Option<(CommentBlock, LineNumber)>)
        requires
            old(self).wf(),
            line_number < LineNumber::MAX,
        ensures
            final(self).wf(),
            final(self).start_of_file_contiguous_comment_lines == old(self).start_of_file_contiguous_comment_lines,
            final(self).lines_with_ruby == old(self).lines_with_ruby,
            final(self).last_lineno == old(self).last_lineno,
            final(self).comment_start_offsets == old(self).comment_start_offsets,
            final(self).newline_offsets == old(self).newline_offsets,
            r is None <==> (old(self).comments_view().len() == 0 || old(self).comments_view()[0].0
                > line_number),
            r is None ==> final(self).other_comments == old(self).other_comments,
            r matches Some(res) ==> {
                let cs = old(self).comments_view();
                &&& (block_view(res.0), res.1) == extracted(cs, starting_line_number, line_number)
                &&& final(self).comments_view() == cs.skip(count_through(cs, line_number) as int)
            },
    {
        if self.other_comments.len() == 0 {
            return None;
        }
        let lowest_line = self.other_comments[0].0;
        if lowest_line > line_number {
            return None;
        }
        let ghost cs = self.comments_view();
        let split_point = self.comments_before(line_number + 1);
        proof {
            assert forall|i: int| 0 <= i < split_point implies #[trigger] cs[i].0 <= line_number by {
                assert(cs[i].0 == self.other_comments@[i].0);
            }
            assert forall|i: int| split_point <= i < cs.len() implies #[trigger] cs[i].0 > line_number by {
                assert(cs[i].0 == self.other_comments@[i].0);
            }
            lemma_count_through(cs, line_number, split_point as int);
        }
        let mut comment_block_with_spaces: Vec<Vec<u8>> = Vec::new();
        if line_difference_requires_newline(lowest_line, starting_line_number) {
            comment_block_with_spaces.push(Vec::new());
        }
        let ghost lead = comment_block_with_spaces@.map_values(|c: Vec<u8>| c@);
        let ghost old_ls = comment_lines(self.other_comments@);
        let rest = self.other_comments.split_off(split_point);
        let mut taken = rest;
        std::mem::swap(&mut taken, &mut self.other_comments);
        proof {
            let ls = comment_lines(self.other_comments@);
            assert forall|i: int, j: int| 0 <= i < j < ls.len() implies ls[i] < ls[j] by {
                assert(ls[i] == old_ls[i + split_point]);
                assert(ls[j] == old_ls[j + split_point]);
            }
            assert(self.comments_view() =~= cs.skip(split_point as int));
        }
        let ghost tv = cs.take(split_point as int);
        let mut last_line: Option<LineNumber> = None;
        let mut k: usize = 0;
        assert(tv.take(0) =~= Seq::<(LineNumber, Seq<u8>)>::empty());
        while taken.len() > 0
            invariant
                k <= split_point,
                tv.len() == split_point,
                taken@.map_values(|c: (LineNumber, Vec<u8>)| (c.0, c.1@)) == tv.skip(k as int),
                (comment_block_with_spaces@.map_values(|c: Vec<u8>| c@), last_line) == ({
                    let run = comment_run(tv.take(k as int));
                    (lead + run.0, run.1)
                }),
            decreases taken@.len(),
        {
            let ghost before = comment_block_with_spaces@.map_values(|c: Vec<u8>| c@);
            let (index, comment_contents) = taken.remove(0);
            proof {
                assert(tv.skip(k as int)[0] == (index, comment_contents@));
                assert(tv.skip(k as int).skip(1) =~= tv.skip(k + 1));
                assert(tv.take(k + 1).drop_last() =~= tv.take(k as int));
                assert(tv.take(k + 1).last() == (index, comment_contents@));
            }
            if let Some(l) = last_line {
                if line_difference_requires_newline(index, l) {
                    comment_block_with_spaces.push(Vec::new());
                }
            }
            let line_count = count_lines(comment_contents.as_slice());
            let end = index.saturating_add(line_count as u64);
            let last = if end > 0 {
                end - 1
            } else {
                0
            };
            last_line = Some(last);
            comment_block_with_spaces.push(comment_contents);
            proof {
                let run = comment_run(tv.take(k as int));
                let after = comment_block_with_spaces@.map_values(|c: Vec<u8>| c@);
                if run.1 is Some && requires_newline(index as int, run.1.unwrap() as int) {
                    assert(after =~= (lead + run.0).push(Seq::empty()).push(comment_contents@));
                } else {
                    assert(after =~= (lead + run.0).push(comment_contents@));
                }
            }
            k = k + 1;
        }
        assert(tv.take(k as int) =~= tv);
        let last = match last_line {
            Some(l) => l,
            None => {
                proof {
                    assert(false);
                }
                0
            },
        };
        let mut final_last = last;
        if line_number > 0 && line_number - 1 > last {
            final_last = line_number;
            comment_block_with_spaces.push(Vec::new());
        }
        proof {
            assert(cs.take(count_through(cs, line_number) as int) == tv);
            let run = comment_run(tv);
            if line_number > last + 1 {
                assert(comment_block_with_spaces@.map_values(|c: Vec<u8>| c@) =~= (lead + run.0).push(
                    Seq::empty(),
                ));
            }
        }
        Some((CommentBlock::new(lowest_line..line_number + 1, comment_block_with_spaces), final_last))
    }

    /// Whether `line` holds Ruby code; `inside_embdoc` tracks `=begin` blocks.
    fn line_has_ruby(line: &[u8], inside_embdoc: &mut bool) -> (r: bool)
        ensures
            (r, *final(inside_embdoc)) == spec_line_has_ruby(line@, *old(inside_embdoc)),
    {
        let idx = leading_ws(line);
        if idx == line.len() {
            return false;
        }
        if bytes_start_with(line, idx, &[61u8, 98u8, 101u8, 103u8, 105u8, 110u8]) {
            *inside_embdoc = true;
            return false;
        }
        if bytes_start_with(line, idx, &[61u8, 101u8, 110u8, 100u8]) {
            *inside_embdoc = false;
            return false;
        }
        if *inside_embdoc {
            return false;
        }
        line[idx] != 35u8
    }

    pub fn still_in_file(&self, line_number: LineNumber) -> (r: bool)
        ensures
            r == (line_number < self.last_lineno),
    {
        line_number < self.last_lineno
    }

    /// The number of comments before `line_number`.
    fn comments_before(&self, line_number: LineNumber) -> (r: usize)
        requires
            increasing(comment_lines(self.other_comments@)),
        ensures
            r <= self.other_comments@.len(),
            forall|i: int| 0 <= i < r ==> #[trigger] self.other_comments@[i].0 < line_number,
            forall|i: int| r <= i < self.other_comments@.len() ==> #[trigger] self.other_comments@[i].0 >= line_number,
    {
        let ghost ls = comment_lines(self.other_comments@);
        let mut lo: usize = 0;
        let mut hi: usize = self.other_comments.len();
        while lo < hi
            invariant
                ls == comment_lines(self.other_comments@),
                increasing(ls),
                lo <= hi <= self.other_comments@.len(),
                forall|i: int| 0 <= i < lo ==> #[trigger] self.other_comments@[i].0 < line_number,
                forall|i: int| hi <= i < self.other_comments@.len() ==> #[trigger] self.other_comments@[i].0 >= line_number,
            decreases hi - lo,
        {
            let mid = lo + (hi - lo) / 2;
            if self.other_comments[mid].0 < line_number {
                assert forall|i: int| 0 <= i <= mid implies #[trigger] self.other_comments@[i].0 < line_number by {
                    assert(ls[i] == self.other_comments@[i].0);
                    assert(ls[mid as int] == self.other_comments@[mid as int].0);
                }
                lo = mid + 1;
            } else {
                assert forall|i: int| mid <= i < self.other_comments@.len() implies #[trigger] self.other_comments@[i].0 >= line_number by {
                    assert(ls[i] == self.other_comments@[i].0);
                    assert(ls[mid as int] == self.other_comments@[mid as int].0);
                }
                hi = mid;
            }
        }
        lo
    }

    /// Whether a comment (after the first block) starts on `line_number`.
    pub fn has_line(&self, line_number: LineNumber) -> (r: bool)
        requires
            increasing(comment_lines(self.other_comments@)),
        ensures
            r == comment_lines(self.other_comments@).contains(line_number),
    {
        let idx = self.comments_before(line_number);
        let ghost ls = comment_lines(self.other_comments@);
        let r = idx < self.other_comments.len() && self.other_comments[idx].0 == line_number;
        proof {
            if r {
                assert(ls[idx as int] == line_number);
            }
            if ls.contains(line_number) {
                let k = choose|k: int| 0 <= k < ls.len() && ls[k] == line_number;
                assert(ls[k] == self.other_comments@[k].0);
                if idx < self.other_comments@.len() {
                    assert(ls[idx as int] == self.other_comments@[idx as int].0);
                }
            }
        }
        r
    }

    /// Whether `line_number` holds no Ruby code.
    pub fn is_empty_line(&self, line_number: LineNumber) -> (r: bool)
        requires
            increasing(self.lines_with_ruby@),
        ensures
            r == !self.lines_with_ruby@.contains(line_number),
    {
        let v = &self.lines_with_ruby;
        let mut lo: usize = 0;
        let mut hi: usize = v.len();
        while lo < hi
            invariant
                increasing(v@),
                lo <= hi <= v@.len(),
                forall|i: int| 0 <= i < lo ==> #[trigger] v@[i] < line_number,
                forall|i: int| hi <= i < v@.len() ==> #[trigger] v@[i] >= line_number,
            decreases hi - lo,
        {
            let mid = lo + (hi - lo) / 2;
            if v[mid] < line_number {
                lo = mid + 1;
            } else {
                hi = mid;
            }
        }
        let found = lo < v.len() && v[lo] == line_number;
        proof {
            if v@.contains(line_number) {
                let k = choose|k: int| 0 <= k < v@.len() && v@[k] == line_number;
                assert(v@[k] == line_number);
            }
        }
        !found
    }

    /// Hands out the comment block at the very start of the file, if any.
    pub fn take_start_of_file_contiguous_comment_lines(&mut self) -> (r: Option<CommentBlock>)
        ensures
            r == old(self).start_of_file_contiguous_comment_lines,
            final(self).start_of_file_contiguous_comment_lines is None,
            final(self).other_comments == old(self).other_comments,
            final(self).lines_with_ruby == old(self).lines_with_ruby,
            final(self).last_lineno == old(self).last_lineno,
            final(self).comment_start_offsets == old(self).comment_start_offsets,
            final(self).newline_offsets == old(self).newline_offsets,
    {
        self.start_of_file_contiguous_comment_lines.take()
    }

    /// Whether a comment (after the first block) starts on a line in
    /// `start_line..end_line`.
    pub fn has_comments_in_lines(&self, start_line: LineNumber, end_line: LineNumber) -> (r: bool)
        ensures
            r == exists|i: int|
                0 <= i < self.other_comments@.len() && start_line <= #[trigger] self.other_comments@[i].0
                    < end_line,
    {
        let mut i: usize = 0;
        while i < self.other_comments.len()
            invariant
                i <= self.other_comments@.len(),
                forall|j: int| 0 <= j < i ==> !(start_line <= #[trigger] self.other_comments@[j].0 < end_line),
            decreases self.other_comments@.len() - i,
        {
            let ln = self.other_comments[i].0;
            if start_line <= ln && ln < end_line {
                return true;
            }
            i = i + 1;
        }
        false
    }

    /// Whether a comment starts at an offset in `start_offset..end_offset`.
    pub fn has_comment_in_offsets(&self, start_offset: SourceOffset, end_offset: SourceOffset) -> (r: bool)
        requires
            increasing_offsets(self.comment_start_offsets@),
        ensures
            r == exists|k: int|
                0 <= k < self.comment_start_offsets@.len() && start_offset
                    <= #[trigger] self.comment_start_offsets@[k] < end_offset,
    {
        let v = &self.comment_start_offsets;
        let mut lo: usize = 0;
        let mut hi: usize = v.len();
        while lo < hi
            invariant
                increasing_offsets(v@),
                lo <= hi <= v@.len(),
                forall|i: int| 0 <= i < lo ==> #[trigger] v@[i] < start_offset,
                forall|i: int| hi <= i < v@.len() ==> #[trigger] v@[i] >= start_offset,
            decreases hi - lo,
        {
            let mid = lo + (hi - lo) / 2;
            if v[mid] < start_offset {
                lo = mid + 1;
            } else {
                hi = mid;
            }
        }
        let r = lo < v.len() && v[lo] < end_offset;
        proof {
            if exists|k: int| 0 <= k < v@.len() && start_offset <= #[trigger] v@[k] < end_offset {
                let k = choose|k: int| 0 <= k < v@.len() && start_offset <= #[trigger] v@[k] < end_offset;
                assert(v@[k] >= start_offset);
                if lo < v@.len() && lo < k {
                    assert(v@[lo as int] < v@[k]);
                }
            }
        }
        r
    }

    /// The line (counted from 1) that holds the byte at `source_offset`: one
    /// more than the number of newlines before it.
    pub fn get_line_number_for_offset(&self, source_offset: SourceOffset) -> (r: LineNumber)
        requires
            increasing_offsets(self.newline_offsets@),
            self.newline_offsets@.len() + 1 < usize::MAX,
        ensures
            is_line_of_offset(self.newline_offsets@, source_offset, r as int),
            r == newlines_before(self.newline_offsets@, source_offset) + 1,
    {
        let v = &self.newline_offsets;
        let mut lo: usize = 0;
        let mut hi: usize = v.len();
        while lo < hi
            invariant
                increasing_offsets(v@),
                lo <= hi <= v@.len(),
                forall|i: int| 0 <= i < lo ==> #[trigger] v@[i] < source_offset,
                forall|i: int| hi <= i < v@.len() ==> #[trigger] v@[i] >= source_offset,
            decreases hi - lo,
        {
            let mid = lo + (hi - lo) / 2;
            if v[mid] < source_offset {
                lo = mid + 1;
            } else {
                hi = mid;
            }
        }
        proof {
            lemma_line_of_offset_counts(v@, source_offset, lo + 1);
        }
        lo as u64 + 1
    }
}

} // verus!
