use crate::comment_block::newline_count;
use crate::types::ColNumber;
use crate::util::{bytes_of, indent_vec, spaces};
use vstd::prelude::*;

verus! {

#[derive(Debug, Clone, Copy, PartialEq, Eq, Structural)]
pub enum HeredocKind {
    Bare,
    Dash,
    Squiggly,
}

/// The kind named by the bytes that open a heredoc (`<<~`, `<<-`, `<<`).
pub open spec fn spec_heredoc_kind(kind_bytes: Seq<u8>) -> HeredocKind {
    if kind_bytes.contains(126u8) {
        HeredocKind::Squiggly
    } else if kind_bytes.contains(45u8) {
        HeredocKind::Dash
    } else {
        HeredocKind::Bare
    }
}

impl HeredocKind {
    pub fn from_bytes(kind_bytes: &[u8]) -> (r: Self)
        ensures
            r == spec_heredoc_kind(kind_bytes@),
    {
        let mut has_tilde = false;
        let mut has_dash = false;
        let mut i: usize = 0;
        while i < kind_bytes.len()
            invariant
                i <= kind_bytes@.len(),
                has_tilde == kind_bytes@.take(i as int).contains(126u8),
                has_dash == kind_bytes@.take(i as int).contains(45u8),
            decreases kind_bytes@.len() - i,
        {
            let ghost prev = kind_bytes@.take(i as int);
            assert(kind_bytes@.take(i + 1) =~= prev.push(kind_bytes@[i as int]));
            if kind_bytes[i] == 126u8 {
                has_tilde = true;
            }
            if kind_bytes[i] == 45u8 {
                has_dash = true;
            }
            proof {
                let next = kind_bytes@.take(i + 1);
                if has_tilde && !prev.contains(126u8) {
                    assert(next[i as int] == 126u8);
                }
                if has_dash && !prev.contains(45u8) {
                    assert(next[i as int] == 45u8);
                }
                if prev.contains(126u8) {
                    let j = choose|j: int| 0 <= j < prev.len() && prev[j] == 126u8;
                    assert(next[j] == 126u8);
                }
                if prev.contains(45u8) {
                    let j = choose|j: int| 0 <= j < prev.len() && prev[j] == 45u8;
                    assert(next[j] == 45u8);
                }
            }
            i = i + 1;
        }
        assert(kind_bytes@.take(i as int) =~= kind_bytes@);
        if has_tilde {
            HeredocKind::Squiggly
        } else if has_dash {
            HeredocKind::Dash
        } else {
            HeredocKind::Bare
        }
    }

    pub fn is_squiggly(&self) -> (r: bool)
        ensures
            r == (*self == HeredocKind::Squiggly),
    {
        matches!(self, HeredocKind::Squiggly)
    }

    pub fn is_bare(&self) -> (r: bool)
        ensures
            r == (*self == HeredocKind::Bare),
    {
        matches!(self, HeredocKind::Bare)
    }
}

/// A segment of heredoc content. Used to distinguish between content that should
/// receive squiggly indentation and content from nested non-squiggly heredocs
/// that should not be indented.
#[derive(Debug)]
pub enum HeredocSegment {
    Normal(Vec<u8>),
    /// Content from nested non-squiggly heredocs, should never receive squiggly indentation.
    /// This includes both the heredoc content and the closing identifier.
    Raw(Vec<u8>),
}

#[derive(Debug)]
pub struct HeredocString {
    pub symbol: Vec<u8>,
    pub kind: HeredocKind,
    pub segments: Vec<HeredocSegment>,
    pub indent: ColNumber,
}

/// The bytes that `u8::is_ascii_whitespace` accepts.
pub open spec fn is_ascii_ws(b: u8) -> bool {
    b == 32u8 || b == 9u8 || b == 10u8 || b == 12u8 || b == 13u8
}

/// `s` without its trailing ASCII whitespace.
pub open spec fn trim_end(s: Seq<u8>) -> Seq<u8>
    decreases s.len(),
{
    if s.len() > 0 && is_ascii_ws(s.last()) {
        trim_end(s.drop_last())
    } else {
        s
    }
}

/// The lines of `s` (split at `\n`, `line` being the part of the current line
/// already read), each behind `prefix` and trimmed at the end, joined by `\n`.
pub open spec fn render_lines(s: Seq<u8>, line: Seq<u8>, prefix: Seq<u8>) -> Seq<u8>
    decreases s.len(),
{
    if s.len() == 0 {
        trim_end(prefix + line)
    } else if s[0] == 10u8 {
        trim_end(prefix + line) + seq![10u8] + render_lines(s.skip(1), Seq::empty(), prefix)
    } else {
        render_lines(s.skip(1), line.push(s[0]), prefix)
    }
}

/// The rendering of one segment: normal segments of a squiggly heredoc get
/// `indent + 2` spaces in front of each line.
pub open spec fn render_segment(seg: HeredocSegment, squiggly: bool, indent: nat) -> Seq<u8> {
    match seg {
        HeredocSegment::Normal(c) => render_lines(
            c@,
            Seq::empty(),
            if squiggly {
                spaces(indent + 2)
            } else {
                Seq::empty()
            },
        ),
        HeredocSegment::Raw(c) => render_lines(c@, Seq::empty(), Seq::empty()),
    }
}

pub open spec fn render_segments(segs: Seq<HeredocSegment>, squiggly: bool, indent: nat) -> Seq<u8>
    decreases segs.len(),
{
    if segs.len() == 0 {
        Seq::empty()
    } else {
        render_segments(segs.drop_last(), squiggly, indent) + render_segment(segs.last(), squiggly, indent)
    }
}

/// `s` without its single and double quotes.
pub open spec fn remove_quotes(s: Seq<u8>) -> Seq<u8>
    decreases s.len(),
{
    if s.len() == 0 {
        Seq::empty()
    } else if s.last() == 39u8 || s.last() == 34u8 {
        remove_quotes(s.drop_last())
    } else {
        remove_quotes(s.drop_last()).push(s.last())
    }
}

/// The length of `s` once its trailing ASCII whitespace is removed.
pub(crate) fn trimmed_len(s: &[u8]) -> (r: usize)
    ensures
        r <= s@.len(),
        s@.take(r as int) == trim_end(s@),
{
    let mut end = s.len();
    assert(s@.take(end as int) =~= s@);
    while end > 0 && (s[end - 1] == 32u8 || s[end - 1] == 9u8 || s[end - 1] == 10u8 || s[end - 1]
        == 12u8 || s[end - 1] == 13u8)
        invariant
            end <= s@.len(),
            trim_end(s@) == trim_end(s@.take(end as int)),
        decreases end,
    {
        assert(s@.take(end as int).drop_last() =~= s@.take(end - 1));
        end = end - 1;
    }
    end
}

/// Appends `trim_end(prefix + line)` to `out`.
fn push_trimmed_line(out: &mut Vec<u8>, prefix_len: usize, line: &[u8])
    ensures
        final(out)@ == old(out)@ + trim_end(spaces(prefix_len as nat) + line@),
{
    let mut full = indent_vec(prefix_len);
    let mut i: usize = 0;
    let ghost start = full@;
    while i < line.len()
        invariant
            i <= line@.len(),
            full@ == start + line@.take(i as int),
        decreases line@.len() - i,
    {
        full.push(line[i]);
        assert(line@.take(i + 1) =~= line@.take(i as int).push(line@[i as int]));
        i = i + 1;
    }
    assert(line@.take(i as int) =~= line@);
    let n = trimmed_len(full.as_slice());
    let mut j: usize = 0;
    let ghost before = out@;
    while j < n
        invariant
            j <= n,
            n <= full@.len(),
            out@ == before + full@.take(j as int),
        decreases n - j,
    {
        out.push(full[j]);
        assert(full@.take(j + 1) =~= full@.take(j as int).push(full@[j as int]));
        j = j + 1;
    }
}

/// Appends the rendering of one segment's content, lines behind `prefix_len` spaces.
fn push_rendered_lines(out: &mut Vec<u8>, content: &[u8], prefix_len: usize)
    ensures
        final(out)@ == old(out)@ + render_lines(content@, Seq::empty(), spaces(prefix_len as nat)),
{
    let len = content.len();
    let mut line_start: usize = 0;
    let mut i: usize = 0;
    let ghost total = old(out)@ + render_lines(content@, Seq::empty(), spaces(prefix_len as nat));
    proof {
        assert(content@.skip(0) =~= content@);
        assert(content@.subrange(0, 0) =~= Seq::<u8>::empty());
    }
    while i < len
        invariant
            len == content@.len(),
            line_start <= i <= len,
            total == out@ + render_lines(
                content@.skip(i as int),
                content@.subrange(line_start as int, i as int),
                spaces(prefix_len as nat),
            ),
        decreases len - i,
    {
        let ghost t = content@.skip(i as int);
        assert(t.skip(1) =~= content@.skip(i + 1));
        if content[i] == 10u8 {
            let line = vstd::slice::slice_subrange(content, line_start, i);
            push_trimmed_line(out, prefix_len, line);
            out.push(10u8);
            assert(content@.subrange(i + 1, i + 1) =~= Seq::<u8>::empty());
            line_start = i + 1;
        } else {
            assert(content@.subrange(line_start as int, i + 1) =~= content@.subrange(
                line_start as int,
                i as int,
            ).push(content@[i as int]));
        }
        i = i + 1;
    }
    let line = vstd::slice::slice_subrange(content, line_start, len);
    push_trimmed_line(out, prefix_len, line);
}

impl HeredocString {
    pub fn new(symbol: Vec<u8>, kind: HeredocKind, segments: Vec<HeredocSegment>, indent: ColNumber) -> (r:
        Self)
        ensures
            r.symbol == symbol,
            r.kind == kind,
            r.segments == segments,
            r.indent == indent,
    {
        HeredocString { symbol, kind, segments, indent }
    }

    /// The heredoc's body: every segment split into lines, each line trimmed at
    /// the end; lines of normal segments of a squiggly heredoc are indented by
    /// `indent + 2` spaces.
    pub fn render_as_bytes(self) -> (r: Vec<u8>)
        requires
            self.indent as int + 2 <= usize::MAX,
        ensures
            r@ == render_segments(self.segments@, self.kind == HeredocKind::Squiggly, self.indent as nat),
    {
        let squiggly = self.kind.is_squiggly();
        let indent = self.indent as usize + 2;
        let mut result: Vec<u8> = Vec::new();
        let mut i: usize = 0;
        while i < self.segments.len()
            invariant
                i <= self.segments@.len(),
                indent == self.indent as int + 2,
                squiggly == (self.kind == HeredocKind::Squiggly),
                result@ == render_segments(self.segments@.take(i as int), squiggly, self.indent as nat),
            decreases self.segments@.len() - i,
        {
            assert(self.segments@.take(i + 1).drop_last() =~= self.segments@.take(i as int));
            match &self.segments[i] {
                HeredocSegment::Normal(content) => {
                    let prefix = if squiggly {
                        indent
                    } else {
                        0
                    };
                    assert(spaces(0) =~= Seq::<u8>::empty());
                    push_rendered_lines(&mut result, content.as_slice(), prefix);
                },
                HeredocSegment::Raw(content) => {
                    assert(spaces(0) =~= Seq::<u8>::empty());
                    push_rendered_lines(&mut result, content.as_slice(), 0);
                },
            }
            i = i + 1;
        }
        assert(self.segments@.take(i as int) =~= self.segments@);
        result
    }

    /// The symbol with any quotes stripped. We only store the opening symbol
    /// for heredocs, but this opening symbol can be surrounded with single
    /// quotes (`<<~'RUBY'`); the closing symbol must not have quotes.
    pub fn closing_symbol(&self) -> (r: Vec<u8>)
        ensures
            r@ == remove_quotes(self.symbol@),
    {
        let mut out: Vec<u8> = Vec::new();
        let mut i: usize = 0;
        while i < self.symbol.len()
            invariant
                i <= self.symbol@.len(),
                out@ == remove_quotes(self.symbol@.take(i as int)),
            decreases self.symbol@.len() - i,
        {
            let b = self.symbol[i];
            assert(self.symbol@.take(i + 1).drop_last() =~= self.symbol@.take(i as int));
            if b != 39u8 && b != 34u8 {
                out.push(b);
            }
            i = i + 1;
        }
        assert(self.symbol@.take(i as int) =~= self.symbol@);
        out
    }
}

/// The closing symbol of a heredoc holds no quote.
pub proof fn law_closing_symbol_has_no_quotes(s: Seq<u8>)
    ensures
        forall|i: int|
            0 <= i < remove_quotes(s).len() ==> remove_quotes(s)[i] != 39u8 && remove_quotes(s)[i]
                != 34u8,
    decreases s.len(),
{
    if s.len() > 0 {
        law_closing_symbol_has_no_quotes(s.drop_last());
        let r = remove_quotes(s);
        let p = remove_quotes(s.drop_last());
        assert forall|i: int| 0 <= i < r.len() implies r[i] != 39u8 && r[i] != 34u8 by {
            if i < p.len() {
                assert(r[i] == p[i]);
            }
        }
    }
}

/// Rendering a heredoc body keeps its lines: the result has as many newlines
/// as the content.
pub proof fn law_rendered_body_keeps_its_lines(s: Seq<u8>, indent: nat)
    ensures
        newline_count(render_lines(s, Seq::empty(), spaces(indent))) == newline_count(s),
{
    lemma_render_lines_newlines(s, Seq::empty(), spaces(indent));
}

proof fn lemma_newline_count_concat(a: Seq<u8>, b: Seq<u8>)
    ensures
        newline_count(a + b) == newline_count(a) + newline_count(b),
    decreases b.len(),
{
    if b.len() == 0 {
        assert(a + b =~= a);
    } else {
        lemma_newline_count_concat(a, b.drop_last());
        assert((a + b).drop_last() =~= a + b.drop_last());
    }
}

proof fn lemma_no_newline_count(a: Seq<u8>)
    requires
        forall|k: int| 0 <= k < a.len() ==> a[k] != 10u8,
    ensures
        newline_count(a) == 0,
    decreases a.len(),
{
    if a.len() > 0 {
        lemma_no_newline_count(a.drop_last());
    }
}

proof fn lemma_render_lines_newlines(s: Seq<u8>, line: Seq<u8>, prefix: Seq<u8>)
    requires
        forall|k: int| 0 <= k < line.len() ==> line[k] != 10u8,
        forall|k: int| 0 <= k < prefix.len() ==> prefix[k] != 10u8,
    ensures
        newline_count(render_lines(s, line, prefix)) == newline_count(s),
    decreases s.len(),
{
    let x = prefix + line;
    lemma_trim_end_last(x);
    let a = trim_end(x);
    assert forall|k: int| 0 <= k < a.len() implies a[k] != 10u8 by {
        assert(a[k] == x[k]);
        if k < prefix.len() {
            assert(x[k] == prefix[k]);
        } else {
            assert(x[k] == line[k - prefix.len()]);
        }
    }
    lemma_no_newline_count(a);
    if s.len() > 0 {
        assert(s =~= seq![s[0]] + s.skip(1));
        lemma_newline_count_concat(seq![s[0]], s.skip(1));
        assert(newline_count(seq![s[0]]) == if s[0] == 10u8 {
            1nat
        } else {
            0nat
        }) by {
            reveal_with_fuel(newline_count, 2);
            assert(seq![s[0]].drop_last() =~= Seq::<u8>::empty());
            assert(seq![s[0]].last() == s[0]);
        }
        if s[0] == 10u8 {
            lemma_render_lines_newlines(s.skip(1), Seq::empty(), prefix);
            let rest = render_lines(s.skip(1), Seq::empty(), prefix);
            lemma_newline_count_concat(a, seq![10u8]);
            lemma_newline_count_concat(a + seq![10u8], rest);
            assert(newline_count(seq![10u8]) == 1) by {
                reveal_with_fuel(newline_count, 2);
                assert(seq![10u8].drop_last() =~= Seq::<u8>::empty());
            }
        } else {
            let l2 = line.push(s[0]);
            assert forall|k: int| 0 <= k < l2.len() implies l2[k] != 10u8 by {
                if k < line.len() {
                    assert(l2[k] == line[k]);
                }
            }
            lemma_render_lines_newlines(s.skip(1), l2, prefix);
        }
    }
}

/// No line of a rendered heredoc body ends in whitespace: every byte right
/// before a newline is a newline or not whitespace, and so is the last byte.
pub proof fn law_rendered_lines_have_no_trailing_blank(s: Seq<u8>, indent: nat)
    ensures
        ({
            let r = render_lines(s, Seq::empty(), spaces(indent));
            &&& forall|i: int|
                0 <= i < r.len() - 1 && r[i + 1] == 10u8 ==> !is_ascii_ws(r[i]) || r[i] == 10u8
            &&& r.len() > 0 ==> !is_ascii_ws(r.last()) || r.last() == 10u8
        }),
{
    lemma_rendered_lines_no_trailing_blank(s, Seq::empty(), spaces(indent));
}

proof fn lemma_rendered_lines_no_trailing_blank(s: Seq<u8>, line: Seq<u8>, prefix: Seq<u8>)
    requires
        forall|k: int| 0 <= k < line.len() ==> line[k] != 10u8,
        forall|k: int| 0 <= k < prefix.len() ==> prefix[k] != 10u8,
    ensures
        ({
            let r = render_lines(s, line, prefix);
            &&& forall|i: int|
                0 <= i < r.len() - 1 && r[i + 1] == 10u8 ==> !is_ascii_ws(r[i]) || r[i] == 10u8
            &&& r.len() > 0 ==> !is_ascii_ws(r.last()) || r.last() == 10u8
        }),
    decreases s.len(),
{
    let x = prefix + line;
    lemma_trim_end_last(x);
    let a = trim_end(x);
    assert forall|k: int| 0 <= k < a.len() implies a[k] != 10u8 by {
        assert(a[k] == x[k]);
        if k < prefix.len() {
            assert(x[k] == prefix[k]);
        } else {
            assert(x[k] == line[k - prefix.len()]);
        }
    }
    if s.len() == 0 {
    } else if s[0] == 10u8 {
        lemma_rendered_lines_no_trailing_blank(s.skip(1), Seq::empty(), prefix);
        let rest = render_lines(s.skip(1), Seq::empty(), prefix);
        let r = a + seq![10u8] + rest;
        assert(r == render_lines(s, line, prefix));
        assert forall|i: int| 0 <= i < r.len() - 1 && r[i + 1] == 10u8 implies !is_ascii_ws(r[i])
            || r[i] == 10u8 by {
            if i < a.len() - 1 {
                assert(r[i + 1] == a[i + 1]);
            } else if i == a.len() - 1 {
                assert(r[i] == a.last());
            } else if i == a.len() {
                assert(r[i] == 10u8);
            } else {
                assert(r[i] == rest[i - a.len() - 1]);
                assert(r[i + 1] == rest[i - a.len()]);
            }
        }
        if rest.len() == 0 {
            assert(r.last() == 10u8);
        } else {
            assert(r.last() == rest.last());
        }
    } else {
        let l2 = line.push(s[0]);
        assert forall|k: int| 0 <= k < l2.len() implies l2[k] != 10u8 by {
            if k < line.len() {
                assert(l2[k] == line[k]);
            }
        }
        lemma_rendered_lines_no_trailing_blank(s.skip(1), l2, prefix);
    }
}

proof fn lemma_trim_end_last(s: Seq<u8>)
    ensures
        trim_end(s).len() > 0 ==> !is_ascii_ws(trim_end(s).last()),
        trim_end(s).len() <= s.len(),
        trim_end(s) == s.take(trim_end(s).len() as int),
    decreases s.len(),
{
    if s.len() > 0 && is_ascii_ws(s.last()) {
        lemma_trim_end_last(s.drop_last());
        assert(s.drop_last().take(trim_end(s).len() as int) =~= s.take(trim_end(s).len() as int));
    } else {
        assert(s.take(s.len() as int) =~= s);
    }
}

} // verus!
