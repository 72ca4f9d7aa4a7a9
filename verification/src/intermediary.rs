use crate::line_metadata::{fresh_line_metadata, level_lt, LineMetadata};
use crate::line_tokens::{sat, ConcreteLineToken};
use vstd::prelude::*;

verus! {

#[derive(Debug, Clone, Copy, PartialEq, Eq, Structural)]
pub enum BlanklineReason {
    ComesAfterEnd,
    Conditional,
    ClassOrModule,
    DoKeyword,
    EndOfRequireBlock,
    CommentAfterEnd,
}

/// The final token stream as it is being assembled, with what is known of the
/// current and the previous output line.
pub struct Intermediary {
    pub tokens: Vec<ConcreteLineToken>,
    pub index_of_last_hard_newline: usize,
    pub current_line_metadata: LineMetadata,
    pub previous_line_metadata: Option<LineMetadata>,
    /// Extra indentation (in steps of two spaces) from call chains being rendered.
    pub additional_indent: u32,
}

/// `b` is `a` with one hard newline inserted at `at`.
pub open spec fn newline_inserted(a: Seq<ConcreteLineToken>, b: Seq<ConcreteLineToken>, at: int) -> bool {
    &&& 0 <= at <= a.len()
    &&& b == a.insert(at, ConcreteLineToken::HardNewLine)
}

/// `b` is `a`, or `a` with one hard newline inserted.
pub open spec fn same_or_newline_inserted(a: Seq<ConcreteLineToken>, b: Seq<ConcreteLineToken>) -> bool {
    b == a || exists|at: int| newline_inserted(a, b, at)
}

pub open spec fn is_require(part: Seq<u8>) -> bool {
    part == seq![114u8, 101u8, 113u8, 117u8, 105u8, 114u8, 101u8]
}

pub open spec fn is_if(contents: Seq<u8>) -> bool {
    contents == seq![105u8, 102u8]
}

/// Whether a blank line already stands before the last hard newline at
/// `idx`: a hard newline right before it, or a hard newline and an indent.
pub open spec fn blank_before(t: Seq<ConcreteLineToken>, idx: int) -> bool {
    let c_nl = 0 <= idx < t.len() && t[idx] is HardNewLine;
    let b_ind = 1 <= idx && idx - 1 < t.len() && t[idx - 1] is Indent;
    let b_nl = 1 <= idx && idx - 1 < t.len() && t[idx - 1] is HardNewLine;
    let a_nl = 2 <= idx && idx - 2 < t.len() && t[idx - 2] is HardNewLine;
    (a_nl && b_ind && c_nl) || (b_nl && c_nl)
}

/// The tokens and the index of the last hard newline once a blank line is
/// made to stand before that newline.
pub open spec fn with_blankline(t: Seq<ConcreteLineToken>, idx: int) -> (Seq<ConcreteLineToken>, int) {
    if blank_before(t, idx) {
        (t, idx)
    } else {
        (t.insert(idx, ConcreteLineToken::HardNewLine), idx + 1)
    }
}

/// The line so far is `<indent>) ` after a hard newline: a block after a
/// method call's arguments.
pub open spec fn block_after_call(t: Seq<ConcreteLineToken>) -> bool {
    let l = t.len();
    &&& l >= 4
    &&& t[l - 4] is HardNewLine
    &&& t[l - 3] is Indent
    &&& t[l - 2] matches ConcreteLineToken::Delim { contents }
    &&& t[l - 2]->Delim_contents@ == seq![41u8]
    &&& t[l - 1] is Space
}

/// Walking back from the end over at most two hard newlines, whether a
/// `class` or `module` keyword comes first.
pub open spec fn class_or_module_within(t: Seq<ConcreteLineToken>, seen: nat) -> bool
    decreases t.len(),
{
    if t.len() == 0 {
        false
    } else if t.last() is HardNewLine {
        seen < 2 && class_or_module_within(t.drop_last(), seen + 1)
    } else {
        t.last() is ModuleKeyword || t.last() is ClassKeyword || class_or_module_within(t.drop_last(), seen)
    }
}

/// No call-chain indentation marker is among the tokens.
pub open spec fn no_chain_markers(t: Seq<ConcreteLineToken>) -> bool {
    forall|k: int| 0 <= k < t.len() ==> !(#[trigger] t[k] is BeginCallChainIndent) && !(t[k] is EndCallChainIndent)
}

pub proof fn lemma_no_markers_insert(t: Seq<ConcreteLineToken>, i: int, x: ConcreteLineToken)
    requires
        no_chain_markers(t),
        0 <= i <= t.len(),
        !(x is BeginCallChainIndent) && !(x is EndCallChainIndent),
    ensures
        no_chain_markers(t.insert(i, x)),
        no_chain_markers(t.push(x)),
{
    let a = t.insert(i, x);
    assert forall|k: int| 0 <= k < a.len() implies !(#[trigger] a[k] is BeginCallChainIndent) && !(
    a[k] is EndCallChainIndent) by {
        if k < i {
            assert(a[k] == t[k]);
        } else if k > i {
            assert(a[k] == t[k - 1]);
        }
    }
    let b = t.push(x);
    assert forall|k: int| 0 <= k < b.len() implies !(#[trigger] b[k] is BeginCallChainIndent) && !(
    b[k] is EndCallChainIndent) by {
        if k < t.len() {
            assert(b[k] == t[k]);
        }
    }
}

pub proof fn lemma_no_markers_remove(t: Seq<ConcreteLineToken>, i: int)
    requires
        no_chain_markers(t),
        0 <= i < t.len(),
    ensures
        no_chain_markers(t.remove(i)),
        no_chain_markers(t.drop_last()),
{
    let a = t.remove(i);
    assert forall|k: int| 0 <= k < a.len() implies !(#[trigger] a[k] is BeginCallChainIndent) && !(
    a[k] is EndCallChainIndent) by {
        if k < i {
            assert(a[k] == t[k]);
        } else {
            assert(a[k] == t[k + 1]);
        }
    }
    let b = t.drop_last();
    assert forall|k: int| 0 <= k < b.len() implies !(#[trigger] b[k] is BeginCallChainIndent) && !(
    b[k] is EndCallChainIndent) by {
        assert(b[k] == t[k]);
    }
}

/// Pushing a token that is no marker keeps the markers out.
pub proof fn lemma_push_model_no_markers(v: IntermediaryView, lt: ConcreteLineToken)
    requires
        no_chain_markers(v.0),
        !(lt is BeginCallChainIndent) && !(lt is EndCallChainIndent),
        0 <= v.1 <= v.0.len(),
    ensures
        no_chain_markers(push_model(v, lt).0),
{
    let (t, idx, _, _) = v;
    let nl = ConcreteLineToken::HardNewLine;
    let wb = with_blankline(t, idx);
    lemma_no_markers_insert(t, idx, nl);
    assert(no_chain_markers(wb.0));
    lemma_no_markers_insert(wb.0, 0, lt);
    lemma_no_markers_insert(wb.0, 0, nl);
    lemma_no_markers_insert(t, 0, lt);
    lemma_no_markers_insert(t, 0, nl);
    if t.len() > 0 {
        lemma_no_markers_remove(t, 0);
        lemma_no_markers_insert(t.drop_last(), 0, lt);
    }
}

/// The tokens once the garbage of a single-line breakable entry is cleared:
/// while the token before the last one is a space or an empty part, it goes.
pub open spec fn cleared_garbage(t: Seq<ConcreteLineToken>) -> Seq<ConcreteLineToken>
    decreases t.len(),
{
    if t.len() >= 2 && t[t.len() - 2].spec_is_garbage() {
        cleared_garbage(t.remove(t.len() - 2))
    } else {
        t
    }
}

/// Clearing garbage keeps the last token last, leaves no garbage right
/// before it, and only drops tokens before the last one.
pub proof fn lemma_cleared_garbage(t: Seq<ConcreteLineToken>)
    ensures
        t.len() > 0 ==> cleared_garbage(t).len() > 0 && cleared_garbage(t).last() == t.last(),
        cleared_garbage(t).len() <= t.len(),
        cleared_garbage(t).len() >= 2 ==> !cleared_garbage(t)[cleared_garbage(t).len() - 2].spec_is_garbage(),
    decreases t.len(),
{
    if t.len() >= 2 && t[t.len() - 2].spec_is_garbage() {
        let u = t.remove(t.len() - 2);
        assert(u.last() == t.last());
        lemma_cleared_garbage(u);
    }
}

/// What an intermediary is: its tokens, the index of its last hard newline,
/// and what is known of the current and the previous line.
pub type IntermediaryView = (Seq<ConcreteLineToken>, int, LineMetadata, Option<LineMetadata>);

/// The blank-line rules of `push`: before a line that ends a block of
/// `require`s, before `class`/`module` unless the line before opened a block,
/// before `do` and `if` after a plain line (but not for a block after a
/// method call), and before a comment that follows `end`. A second blank line
/// is never written, and a blank line between `class`/`module` and a comment
/// is dropped.
pub open spec fn push_model(v: IntermediaryView, lt: ConcreteLineToken) -> IntermediaryView {
    let (t, idx, cur, prev) = v;
    let l = t.len();
    match lt {
        ConcreteLineToken::HardNewLine => {
            let b = if prev matches Some(p) && !cur.require && p.require {
                with_blankline(t, idx)
            } else {
                (t, idx)
            };
            let t1 = b.0;
            let l1 = t1.len();
            if l1 >= 2 && t1[l1 - 2] is HardNewLine && t1[l1 - 1] is HardNewLine {
                (t1, l1 - 1, fresh_line_metadata(), Some(cur))
            } else {
                (t1.push(lt), l1 as int, fresh_line_metadata(), Some(cur))
            }
        },
        ConcreteLineToken::ModuleKeyword | ConcreteLineToken::ClassKeyword => {
            let b = if prev matches Some(p) && !p.gets_indented {
                with_blankline(t, idx)
            } else {
                (t, idx)
            };
            (b.0.push(lt), b.1, cur, prev)
        },
        ConcreteLineToken::DoKeyword => {
            let b = if prev matches Some(p) && p.spec_wants_spacer() && !block_after_call(t) {
                with_blankline(t, idx)
            } else {
                (t, idx)
            };
            (b.0.push(lt), b.1, LineMetadata { has_do_keyword: true, ..cur }, prev)
        },
        ConcreteLineToken::ConditionalKeyword { contents } => {
            let b = if prev matches Some(p) && p.spec_wants_spacer() && is_if(contents@) {
                with_blankline(t, idx)
            } else {
                (t, idx)
            };
            (b.0.push(lt), b.1, LineMetadata { has_conditional: true, ..cur }, prev)
        },
        ConcreteLineToken::End => (t.push(lt), idx, LineMetadata { has_end: true, ..cur }, prev),
        ConcreteLineToken::DefKeyword => (t.push(lt), idx, LineMetadata { has_def: true, ..cur }, prev),
        ConcreteLineToken::Indent { depth } => {
            let prev2 = match prev {
                Some(p) => if level_lt(p.indent_level, Some(depth)) {
                    Some(LineMetadata { gets_indented: true, ..p })
                } else {
                    Some(p)
                },
                None => None,
            };
            (t.push(lt), idx, LineMetadata { indent_level: Some(depth), ..cur }, prev2)
        },
        ConcreteLineToken::DirectPart { part } => {
            let cur2 = if is_require(part@) && l >= 2 && t[l - 2] is Indent {
                LineMetadata { require: true, ..cur }
            } else {
                cur
            };
            (t.push(lt), idx, cur2, prev)
        },
        ConcreteLineToken::Comment { .. } => {
            if l >= 4 && t[l - 2] is End && t[l - 1] is HardNewLine {
                let b = with_blankline(t, idx);
                (b.0.push(lt), b.1, cur, prev)
            } else if l >= 4 && t[l - 2] is HardNewLine && t[l - 1] is HardNewLine
                && class_or_module_within(t, 0) {
                (t.drop_last().push(lt), l - 2, cur, prev)
            } else {
                (t.push(lt), idx, cur, prev)
            }
        },
        _ => (t.push(lt), idx, cur, prev),
    }
}

/// The single-line length of the tokens since the last hard newline.
pub open spec fn line_length(s: Seq<ConcreteLineToken>) -> nat
    decreases s.len(),
{
    if s.len() == 0 || s.last() is HardNewLine {
        0
    } else {
        sat(line_length(s.drop_last()) + s.last().ruby().len())
    }
}

/// The index of the last hard newline points at a hard newline once a line
/// has been finished (or once it is not 0); before that, no hard newline has
/// been written.
pub open spec fn wf_parts(tokens: Seq<ConcreteLineToken>, idx: int, prev_some: bool) -> bool {
    &&& (idx != 0 || prev_some) ==> {
        &&& idx < tokens.len()
        &&& tokens[idx] is HardNewLine
    }
    &&& !prev_some ==> forall|k: int| 0 <= k < tokens.len() ==> !(#[trigger] tokens[k] is HardNewLine)
}

proof fn lemma_wf_push(a: Seq<ConcreteLineToken>, x: ConcreteLineToken, idx: int, prev_some: bool)
    requires
        idx >= 0,
        wf_parts(a, idx, prev_some),
        !(x is HardNewLine),
    ensures
        wf_parts(a.push(x), idx, prev_some),
{
    let b = a.push(x);
    if !prev_some {
        assert forall|k: int| 0 <= k < b.len() implies !(#[trigger] b[k] is HardNewLine) by {
            if k < a.len() {
                assert(b[k] == a[k]);
            }
        }
    }
    if idx != 0 || prev_some {
        assert(b[idx] == a[idx]);
    }
}

proof fn lemma_wf_remove(a: Seq<ConcreteLineToken>, i: int, idx: int, prev_some: bool)
    requires
        idx >= 0,
        wf_parts(a, idx, prev_some),
        0 <= i < a.len(),
        (idx != 0 || prev_some) ==> idx < i,
    ensures
        wf_parts(a.remove(i), idx, prev_some),
{
    let b = a.remove(i);
    if !prev_some {
        assert forall|k: int| 0 <= k < b.len() implies !(#[trigger] b[k] is HardNewLine) by {
            if k < i {
                assert(b[k] == a[k]);
            } else {
                assert(b[k] == a[k + 1]);
            }
        }
    }
    if idx != 0 || prev_some {
        assert(b[idx] == a[idx]);
    }
}

impl Intermediary {
    /// The index of the last hard newline points at a hard newline (once one
    /// has been written).
    pub open spec fn wf(&self) -> bool {
        wf_parts(self.tokens@, self.index_of_last_hard_newline as int, self.previous_line_metadata is Some)
    }

    pub open spec fn view_state(&self) -> IntermediaryView {
        (
            self.tokens@,
            self.index_of_last_hard_newline as int,
            self.current_line_metadata,
            self.previous_line_metadata,
        )
    }

    pub fn new() -> (r: Self)
        ensures
            r.tokens@.len() == 0,
            r.index_of_last_hard_newline == 0,
            r.current_line_metadata.is_fresh(),
            r.current_line_metadata == crate::line_metadata::fresh_line_metadata(),
            r.previous_line_metadata is None,
            r.additional_indent == 0,
            r.wf(),
    {
        Intermediary {
            tokens: Vec::new(),
            current_line_metadata: LineMetadata::new(),
            previous_line_metadata: None,
            index_of_last_hard_newline: 0,
            additional_indent: 0,
        }
    }

    pub fn len(&self) -> (r: usize)
        ensures
            r == self.tokens@.len(),
    {
        self.tokens.len()
    }

    /// Removes the last two tokens; the one before them becomes the last hard newline.
    pub fn pop_heredoc_mistake(&mut self)
        requires
            old(self).wf(),
            old(self).tokens@.len() >= 3,
        ensures
            final(self).tokens@ == old(self).tokens@.take(old(self).tokens@.len() - 2),
            final(self).index_of_last_hard_newline == final(self).tokens@.len() - 1,
            final(self).previous_line_metadata == old(self).previous_line_metadata,
            final(self).current_line_metadata == old(self).current_line_metadata,
            final(self).additional_indent == old(self).additional_indent,
            old(self).tokens@[old(self).tokens@.len() - 3] is HardNewLine ==> final(self).wf(),
    {
        let l = self.tokens.len();
        self.tokens.remove(l - 1);
        self.tokens.remove(l - 2);
        assert(self.tokens@ =~= old(self).tokens@.take(l - 2));
        self.index_of_last_hard_newline = self.tokens.len() - 1;
        proof {
            assert(self.tokens@[l - 3] == old(self).tokens@[l - 3]);
            if old(self).tokens@[l - 3] is HardNewLine && self.previous_line_metadata is None {
                assert(old(self).tokens@[l - 3] is HardNewLine);
            }
        }
    }

    /// Removes the duplicate indent just before the last token.
    pub fn fix_heredoc_indent_mistake(&mut self)
        requires
            old(self).wf(),
            old(self).tokens@.len() >= 2,
        ensures
            final(self).tokens@ == old(self).tokens@.remove(old(self).tokens@.len() - 2),
            final(self).index_of_last_hard_newline == old(self).index_of_last_hard_newline,
            (old(self).index_of_last_hard_newline != 0 || old(self).previous_line_metadata is Some)
                ==> old(self).index_of_last_hard_newline < old(self).tokens@.len() - 2 ==> final(self).wf(),
            final(self).previous_line_metadata == old(self).previous_line_metadata,
            final(self).current_line_metadata == old(self).current_line_metadata,
            final(self).additional_indent == old(self).additional_indent,
    {
        let l = self.tokens.len();
        proof {
            if (self.index_of_last_hard_newline != 0 || self.previous_line_metadata is Some)
                ==> self.index_of_last_hard_newline < l - 2 {
                lemma_wf_remove(
                    self.tokens@,
                    l - 2,
                    self.index_of_last_hard_newline as int,
                    self.previous_line_metadata is Some,
                );
            }
        }
        self.tokens.remove(l - 2);
    }

    /// Removes the last token, a duplicate newline; the one before it becomes
    /// the last hard newline.
    pub fn fix_heredoc_arg_newline_mistake(&mut self)
        requires
            old(self).wf(),
            old(self).tokens@.len() >= 2,
        ensures
            final(self).tokens@ == old(self).tokens@.drop_last(),
            final(self).index_of_last_hard_newline == final(self).tokens@.len() - 1,
            final(self).previous_line_metadata == old(self).previous_line_metadata,
            final(self).current_line_metadata == old(self).current_line_metadata,
            final(self).additional_indent == old(self).additional_indent,
            old(self).tokens@[old(self).tokens@.len() - 2] is HardNewLine ==> final(self).wf(),
    {
        let l = self.tokens.len();
        self.tokens.remove(l - 1);
        self.index_of_last_hard_newline = self.tokens.len() - 1;
        proof {
            assert(self.tokens@[l - 2] == old(self).tokens@[l - 2]);
        }
    }

    /// Removes the duplicate indent left behind by a heredoc that closes
    /// right before a method call.
    pub fn fix_heredoc_duplicate_indent_mistake(&mut self)
        requires
            old(self).wf(),
            old(self).tokens@.len() >= 2,
            (old(self).index_of_last_hard_newline != 0 || old(self).previous_line_metadata is Some)
                ==> old(self).index_of_last_hard_newline < old(self).tokens@.len() - 2,
        ensures
            final(self).tokens@ == old(self).tokens@.remove(old(self).tokens@.len() - 2),
            final(self).index_of_last_hard_newline == old(self).index_of_last_hard_newline,
            final(self).wf(),
            final(self).previous_line_metadata == old(self).previous_line_metadata,
            final(self).current_line_metadata == old(self).current_line_metadata,
            final(self).additional_indent == old(self).additional_indent,
            no_chain_markers(old(self).tokens@) ==> no_chain_markers(final(self).tokens@),
    {
        self.fix_heredoc_indent_mistake();
        proof {
            if no_chain_markers(old(self).tokens@) {
                lemma_no_markers_remove(old(self).tokens@, old(self).tokens@.len() - 2);
            }
        }
    }

    /// The last `n` tokens, if there are that many.
    pub fn last(&self, n: usize) -> (r: Option<&[ConcreteLineToken]>)
        ensures
            r is Some <==> self.tokens@.len() >= n,
            r matches Some(s) ==> s@ == self.tokens@.skip(self.tokens@.len() - n),
    {
        if self.tokens.len() < n {
            return None;
        }
        let l = self.tokens.len();
        let s = vstd::slice::slice_subrange(self.tokens.as_slice(), l - n, l);
        assert(self.tokens@.subrange(l - n, l as int) =~= self.tokens@.skip(l - n));
        Some(s)
    }

    pub fn into_tokens(self) -> (r: Vec<ConcreteLineToken>)
        ensures
            r@ == self.tokens@,
    {
        self.tokens
    }

    /// The single-line length of what has been written since the last newline.
    pub fn current_line_length(&self) -> (r: usize)
        ensures
            r == line_length(self.tokens@),
    {
        let n = self.tokens.len();
        let mut start = n;
        while start > 0 && !matches!(&self.tokens[start - 1], ConcreteLineToken::HardNewLine)
            invariant
                start <= n,
                n == self.tokens@.len(),
                forall|k: int| start <= k < n ==> !(self.tokens@[k] is HardNewLine),
            decreases start,
        {
            start = start - 1;
        }
        let mut acc: usize = 0;
        let mut i = start;
        proof {
            lemma_line_length_split(self.tokens@, start as int);
        }
        while i < n
            invariant
                start <= i <= n,
                n == self.tokens@.len(),
                forall|k: int| start <= k < n ==> !(self.tokens@[k] is HardNewLine),
                acc == line_length(self.tokens@.subrange(start as int, i as int)),
                start == 0 || self.tokens@[start - 1] is HardNewLine,
            decreases n - i,
        {
            let ghost sub = self.tokens@.subrange(start as int, i + 1);
            assert(sub.drop_last() =~= self.tokens@.subrange(start as int, i as int));
            assert(sub.last() == self.tokens@[i as int]);
            acc = acc.saturating_add(self.tokens[i].len());
            i = i + 1;
        }
        proof {
            lemma_line_length_split(self.tokens@, start as int);
        }
        acc
    }

    /// Inserts a hard newline `index_from_end` tokens before the end.
    pub fn insert_blankline_from_end(&mut self, index_from_end: usize)
        requires
            old(self).wf(),
            old(self).previous_line_metadata is Some,
            index_from_end <= old(self).tokens@.len(),
        ensures
            newline_inserted(
                old(self).tokens@,
                final(self).tokens@,
                old(self).tokens@.len() - index_from_end,
            ),
            final(self).index_of_last_hard_newline == if old(self).tokens@.len() - index_from_end
                <= old(self).index_of_last_hard_newline {
                old(self).index_of_last_hard_newline + 1
            } else {
                old(self).index_of_last_hard_newline as int
            },
            final(self).wf(),
            final(self).previous_line_metadata == old(self).previous_line_metadata,
            final(self).current_line_metadata == old(self).current_line_metadata,
            final(self).additional_indent == old(self).additional_indent,
            no_chain_markers(old(self).tokens@) ==> no_chain_markers(final(self).tokens@),
    {
        let at = self.tokens.len() - index_from_end;
        proof {
            if no_chain_markers(old(self).tokens@) {
                lemma_no_markers_insert(old(self).tokens@, at as int, ConcreteLineToken::HardNewLine);
            }
        }
        self.tokens.insert(at, ConcreteLineToken::HardNewLine);
        if at <= self.index_of_last_hard_newline {
            self.index_of_last_hard_newline = self.index_of_last_hard_newline + 1;
        }
    }

    pub fn push(&mut self, lt: ConcreteLineToken)
        requires
            old(self).wf(),
        ensures
            final(self).wf(),
            final(self).view_state() == push_model(old(self).view_state(), lt),
            final(self).additional_indent == old(self).additional_indent,
            !(lt is HardNewLine) && !(lt is Comment) ==> {
                &&& final(self).tokens@.len() > 0
                &&& final(self).tokens@.last() == lt
                &&& same_or_newline_inserted(old(self).tokens@, final(self).tokens@.drop_last())
            },
            lt is HardNewLine ==> {
                &&& final(self).tokens@.len() > 0
                &&& final(self).tokens@.last() is HardNewLine
                &&& final(self).index_of_last_hard_newline == final(self).tokens@.len() - 1
            },
            no_chain_markers(old(self).tokens@) && !(lt is BeginCallChainIndent) && !(lt is EndCallChainIndent)
                ==> no_chain_markers(final(self).tokens@),
    {
        let ghost lt0 = lt;
        match &lt {
            ConcreteLineToken::HardNewLine => {
                let mut insert = false;
                if let Some(prev) = &self.previous_line_metadata {
                    if !self.current_line_metadata.has_require() && prev.has_require() {
                        insert = true;
                    }
                }
                if insert {
                    self.insert_trailing_blankline(BlanklineReason::EndOfRequireBlock);
                }
                let mut md = LineMetadata::new();
                std::mem::swap(&mut md, &mut self.current_line_metadata);
                self.previous_line_metadata = Some(md);
                self.index_of_last_hard_newline = self.tokens.len();
                let l = self.tokens.len();
                if l >= 2 && matches!(&self.tokens[l - 2], ConcreteLineToken::HardNewLine) && matches!(
                    &self.tokens[l - 1],
                    ConcreteLineToken::HardNewLine
                ) {
                    self.index_of_last_hard_newline = l - 1;
                } else {
                    self.tokens.push(lt);
                }
            },
            ConcreteLineToken::Comment { .. } => {
                let l = self.tokens.len();
                if l >= 4 && matches!(&self.tokens[l - 2], ConcreteLineToken::End) && matches!(
                    &self.tokens[l - 1],
                    ConcreteLineToken::HardNewLine
                ) {
                    proof {
                        assert(self.tokens@[l - 1] is HardNewLine);
                    }
                    self.insert_trailing_blankline(BlanklineReason::CommentAfterEnd);
                } else if l >= 4 && matches!(&self.tokens[l - 2], ConcreteLineToken::HardNewLine)
                    && matches!(&self.tokens[l - 1], ConcreteLineToken::HardNewLine) {
                    proof {
                        assert(self.tokens@[l - 1] is HardNewLine);
                    }
                    let module_or_class_before_newline = self.module_or_class_within_two_lines();
                    if module_or_class_before_newline {
                        self.tokens.pop();
                        self.index_of_last_hard_newline = self.tokens.len() - 1;
                        proof {
                            assert(self.tokens@[l - 2] == old(self).tokens@[l - 2]);
                        }
                    }
                }
                proof {
                    lemma_wf_push(
                        self.tokens@,
                        lt,
                        self.index_of_last_hard_newline as int,
                        self.previous_line_metadata is Some,
                    );
                }
                self.tokens.push(lt);
            },
            _ => {
                let ghost before = self.tokens@;
                self.push_non_newline_effects(&lt);
                proof {
                    lemma_wf_push(
                        self.tokens@,
                        lt,
                        self.index_of_last_hard_newline as int,
                        self.previous_line_metadata is Some,
                    );
                }
                let ghost mid = self.tokens@;
                self.tokens.push(lt);
                assert(self.tokens@.drop_last() =~= mid);
            },
        }
        proof {
            if no_chain_markers(old(self).tokens@) && !(lt0 is BeginCallChainIndent) && !(lt0 is EndCallChainIndent) {
                lemma_push_model_no_markers(old(self).view_state(), lt0);
            }
        }
    }

    /// The bookkeeping that pushing a token other than a newline or a comment
    /// does before the token is appended.
    fn push_non_newline_effects(&mut self, lt: &ConcreteLineToken)
        requires
            old(self).wf(),
            !(*lt is HardNewLine),
            !(*lt is Comment),
        ensures
            final(self).wf(),
            same_or_newline_inserted(old(self).tokens@, final(self).tokens@),
            final(self).additional_indent == old(self).additional_indent,
            ({
                let f = final(self).view_state();
                (f.0.push(*lt), f.1, f.2, f.3) == push_model(old(self).view_state(), *lt)
            }),
    {
        match lt {
            ConcreteLineToken::ModuleKeyword | ConcreteLineToken::ClassKeyword => {
                self.handle_class_or_module();
            },
            ConcreteLineToken::DoKeyword => {
                self.handle_do_keyword();
            },
            ConcreteLineToken::ConditionalKeyword { contents } => self.handle_conditional(
                contents.as_slice(),
            ),
            ConcreteLineToken::End => self.handle_end(),
            ConcreteLineToken::DefKeyword => self.handle_def(),
            ConcreteLineToken::Indent { depth } => {
                self.current_line_metadata.observe_indent_level(*depth);
                let mut increases = false;
                if let Some(prev) = &self.previous_line_metadata {
                    increases = LineMetadata::indent_level_increases_between(
                        prev,
                        &self.current_line_metadata,
                    );
                }
                if increases {
                    if let Some(prev) = &mut self.previous_line_metadata {
                        prev.set_gets_indented();
                    }
                }
            },
            ConcreteLineToken::DirectPart { part } => {
                // Read second-to-last token, the last token will be `AfterCallChain`
                let l = self.tokens.len();
                if is_require_bytes(part.as_slice()) && l >= 2 && self.tokens[l - 2].is_indent() {
                    self.current_line_metadata.set_has_require();
                }
            },
            _ => {},
        }
    }

    /// Walking back from the end, whether a `class` or `module` keyword comes
    /// before the third hard newline.
    fn module_or_class_within_two_lines(&self) -> (r: bool)
        ensures
            r == class_or_module_within(self.tokens@, 0),
    {
        let mut found = false;
        let mut past_first_two_newlines: usize = 0;
        let mut i = self.tokens.len();
        assert(self.tokens@.take(i as int) =~= self.tokens@);
        while i > 0
            invariant_except_break
                i <= self.tokens@.len(),
                past_first_two_newlines <= 2,
                class_or_module_within(self.tokens@, 0) == (found || class_or_module_within(
                    self.tokens@.take(i as int),
                    past_first_two_newlines as nat,
                )),
            ensures
                class_or_module_within(self.tokens@, 0) == found,
            decreases i,
        {
            let tok = &self.tokens[i - 1];
            let ghost t = self.tokens@.take(i as int);
            assert(t.last() == *tok);
            assert(t.drop_last() =~= self.tokens@.take(i - 1));
            if matches!(tok, ConcreteLineToken::HardNewLine) {
                if past_first_two_newlines < 2 {
                    past_first_two_newlines = past_first_two_newlines + 1;
                } else {
                    break ;
                }
            }
            if matches!(tok, ConcreteLineToken::ModuleKeyword | ConcreteLineToken::ClassKeyword) {
                found = true;
            }
            i = i - 1;
        }
        found
    }

    fn handle_end(&mut self)
        ensures
            final(self).current_line_metadata == (LineMetadata { has_end: true, ..old(self).current_line_metadata }),
            final(self).tokens == old(self).tokens,
            final(self).previous_line_metadata == old(self).previous_line_metadata,
            final(self).index_of_last_hard_newline == old(self).index_of_last_hard_newline,
            final(self).additional_indent == old(self).additional_indent,
    {
        self.current_line_metadata.set_has_end();
    }

    fn handle_def(&mut self)
        ensures
            final(self).current_line_metadata == (LineMetadata { has_def: true, ..old(self).current_line_metadata }),
            final(self).tokens == old(self).tokens,
            final(self).previous_line_metadata == old(self).previous_line_metadata,
            final(self).index_of_last_hard_newline == old(self).index_of_last_hard_newline,
            final(self).additional_indent == old(self).additional_indent,
    {
        self.current_line_metadata.set_has_def();
    }

    fn handle_do_keyword(&mut self)
        requires
            old(self).wf(),
        ensures
            final(self).wf(),
            ({
                let v = old(self).view_state();
                let b = if v.3 matches Some(p) && p.spec_wants_spacer() && !block_after_call(v.0) {
                    with_blankline(v.0, v.1)
                } else {
                    (v.0, v.1)
                };
                final(self).view_state() == (b.0, b.1, LineMetadata { has_do_keyword: true, ..v.2 }, v.3)
            }),
            same_or_newline_inserted(old(self).tokens@, final(self).tokens@),
            final(self).additional_indent == old(self).additional_indent,
    {
        self.current_line_metadata.set_has_do_keyword();
        let mut insert = false;
        if let Some(prev) = &self.previous_line_metadata {
            if prev.wants_spacer_for_conditional() && !self.is_block_after_method_call() {
                insert = true;
            }
        }
        if insert {
            self.insert_trailing_blankline(BlanklineReason::DoKeyword);
        }
    }

    fn handle_class_or_module(&mut self)
        requires
            old(self).wf(),
        ensures
            final(self).wf(),
            ({
                let v = old(self).view_state();
                let b = if v.3 matches Some(p) && !p.gets_indented {
                    with_blankline(v.0, v.1)
                } else {
                    (v.0, v.1)
                };
                final(self).view_state() == (b.0, b.1, v.2, v.3)
            }),
            same_or_newline_inserted(old(self).tokens@, final(self).tokens@),
            final(self).additional_indent == old(self).additional_indent,
    {
        let mut insert = false;
        if let Some(prev) = &self.previous_line_metadata {
            if !prev.gets_indented() {
                insert = true;
            }
        }
        if insert {
            self.insert_trailing_blankline(BlanklineReason::ClassOrModule);
        }
    }

    fn handle_conditional(&mut self, cond: &[u8])
        requires
            old(self).wf(),
        ensures
            final(self).wf(),
            ({
                let v = old(self).view_state();
                let b = if v.3 matches Some(p) && p.spec_wants_spacer() && is_if(cond@) {
                    with_blankline(v.0, v.1)
                } else {
                    (v.0, v.1)
                };
                final(self).view_state() == (b.0, b.1, LineMetadata { has_conditional: true, ..v.2 }, v.3)
            }),
            same_or_newline_inserted(old(self).tokens@, final(self).tokens@),
            final(self).additional_indent == old(self).additional_indent,
    {
        self.current_line_metadata.set_has_conditional();
        let mut insert = false;
        if let Some(prev) = &self.previous_line_metadata {
            let is_if_keyword = cond.len() == 2 && cond[0] == 105u8 && cond[1] == 102u8;
            proof {
                if is_if_keyword {
                    assert(cond@ =~= seq![105u8, 102u8]);
                }
                if is_if(cond@) {
                    assert(cond@.len() == 2 && cond@[0] == 105u8 && cond@[1] == 102u8);
                }
            }
            if prev.wants_spacer_for_conditional() && is_if_keyword {
                insert = true;
            }
        }
        if insert {
            self.insert_trailing_blankline(BlanklineReason::Conditional);
        }
    }

    /// After a single-line breakable is written the tokens end like
    /// `[.., Comma, Space, DirectPart { part: "" }, <close_delimiter>]`: removes
    /// the tokens before the last one for as long as they are garbage, and
    /// stops when fewer than two tokens are left. When the last token is the
    /// last hard newline, its index moves down with it, so that it still
    /// points at that newline.
    pub fn clear_breakable_garbage(&mut self)
        requires
            old(self).wf(),
        ensures
            final(self).wf(),
            final(self).tokens@ == cleared_garbage(old(self).tokens@),
            final(self).index_of_last_hard_newline == if old(self).tokens@.len() > 0
                && old(self).index_of_last_hard_newline == old(self).tokens@.len() - 1 {
                final(self).tokens@.len() - 1
            } else {
                old(self).index_of_last_hard_newline as int
            },
            final(self).previous_line_metadata == old(self).previous_line_metadata,
            final(self).current_line_metadata == old(self).current_line_metadata,
            final(self).additional_indent == old(self).additional_indent,
            no_chain_markers(old(self).tokens@) ==> no_chain_markers(final(self).tokens@),
    {
        loop
            invariant_except_break
                self.wf(),
                cleared_garbage(self.tokens@) == cleared_garbage(old(self).tokens@),
                self.tokens@.len() <= old(self).tokens@.len(),
                old(self).tokens@.len() > 0 ==> self.tokens@.len() > 0,
                self.index_of_last_hard_newline == if old(self).tokens@.len() > 0
                    && old(self).index_of_last_hard_newline == old(self).tokens@.len() - 1 {
                    self.tokens@.len() - 1
                } else {
                    old(self).index_of_last_hard_newline as int
                },
                self.previous_line_metadata == old(self).previous_line_metadata,
                self.current_line_metadata == old(self).current_line_metadata,
                self.additional_indent == old(self).additional_indent,
                no_chain_markers(old(self).tokens@) ==> no_chain_markers(self.tokens@),
                !(old(self).tokens@.len() > 0 && old(self).index_of_last_hard_newline == old(self).tokens@.len() - 1)
                    ==> (self.tokens@.len() >= 2 ==> self.index_of_last_hard_newline < self.tokens@.len() - 1),
            ensures
                no_chain_markers(old(self).tokens@) ==> no_chain_markers(self.tokens@),
                self.wf(),
                self.tokens@ == cleared_garbage(old(self).tokens@),
                self.index_of_last_hard_newline == if old(self).tokens@.len() > 0
                    && old(self).index_of_last_hard_newline == old(self).tokens@.len() - 1 {
                    self.tokens@.len() - 1
                } else {
                    old(self).index_of_last_hard_newline as int
                },
                self.previous_line_metadata == old(self).previous_line_metadata,
                self.current_line_metadata == old(self).current_line_metadata,
                self.additional_indent == old(self).additional_indent,
            decreases self.tokens@.len(),
        {
            let l = self.tokens.len();
            if l < 2 || !self.tokens[l - 2].is_single_line_breakable_garbage() {
                break ;
            }
            let ghost before = self.tokens@;
            let idx = self.index_of_last_hard_newline;
            proof {
                assert(!(before[l - 2] is HardNewLine));
                if idx != 0 || self.previous_line_metadata is Some {
                    assert(before[idx as int] is HardNewLine);
                }
                if no_chain_markers(before) {
                    lemma_no_markers_remove(before, l - 2);
                }
            }
            self.tokens.remove(l - 2);
            if idx == l - 1 {
                self.index_of_last_hard_newline = l - 2;
            }
            proof {
                let after = self.tokens@;
                assert(after == before.remove(l - 2));
                let ni = self.index_of_last_hard_newline as int;
                if idx as int == l - 1 {
                    assert(after[ni] == before[l - 1]);
                } else if idx != 0 || self.previous_line_metadata is Some {
                    assert(idx < l - 2);
                    assert(after[ni] == before[ni]);
                }
                if self.previous_line_metadata is None {
                    assert forall|k: int| 0 <= k < after.len() implies !(#[trigger] after[k] is HardNewLine) by {
                        if k < l - 2 {
                            assert(after[k] == before[k]);
                        } else {
                            assert(after[k] == before[k + 1]);
                        }
                    }
                }
            }
        }
    }

    /// Inserts a blank line before the last hard newline, unless there is
    /// already one there (directly, or with only an indent in between).
    pub fn insert_trailing_blankline(&mut self, _bl: BlanklineReason)
        requires
            old(self).wf(),
            old(self).previous_line_metadata is Some,
        ensures
            final(self).wf(),
            same_or_newline_inserted(old(self).tokens@, final(self).tokens@),
            (final(self).tokens@, final(self).index_of_last_hard_newline as int) == with_blankline(
                old(self).tokens@,
                old(self).index_of_last_hard_newline as int,
            ),
            final(self).previous_line_metadata == old(self).previous_line_metadata,
            final(self).current_line_metadata == old(self).current_line_metadata,
            final(self).additional_indent == old(self).additional_indent,
            no_chain_markers(old(self).tokens@) ==> no_chain_markers(final(self).tokens@),
    {
        let idx = self.index_of_last_hard_newline;
        let l = self.tokens.len();
        let a_nl = idx >= 2 && idx - 2 < l && matches!(&self.tokens[idx - 2], ConcreteLineToken::HardNewLine);
        let b_ind = idx >= 1 && idx - 1 < l && matches!(&self.tokens[idx - 1], ConcreteLineToken::Indent { .. });
        let b_nl = idx >= 1 && idx - 1 < l && matches!(&self.tokens[idx - 1], ConcreteLineToken::HardNewLine);
        let c_nl = idx < l && matches!(&self.tokens[idx], ConcreteLineToken::HardNewLine);
        if a_nl && b_ind && c_nl {
        } else if b_nl && c_nl {
        } else {
            self.tokens.insert(idx, ConcreteLineToken::HardNewLine);
            proof {
                assert(newline_inserted(old(self).tokens@, self.tokens@, idx as int));
                if no_chain_markers(old(self).tokens@) {
                    lemma_no_markers_insert(old(self).tokens@, idx as int, ConcreteLineToken::HardNewLine);
                }
            }
            self.index_of_last_hard_newline = idx + 1;
        }
    }

    /// Whether the line so far is `<indent>) ` (a block after a method call's
    /// arguments). With fewer than four tokens, it is not.
    fn is_block_after_method_call(&self) -> (r: bool)
        ensures
            r == block_after_call(self.tokens@),
    {
        let l = self.tokens.len();
        if l < 4 {
            return false;
        }
        match (&self.tokens[l - 4], &self.tokens[l - 3], &self.tokens[l - 2], &self.tokens[l - 1]) {
            (
                ConcreteLineToken::HardNewLine,
                ConcreteLineToken::Indent { .. },
                ConcreteLineToken::Delim { contents },
                ConcreteLineToken::Space,
            ) => {
                let r = contents.len() == 1 && contents[0] == 41u8;
                proof {
                    if r {
                        assert(contents@ =~= seq![41u8]);
                    }
                    if contents@ == seq![41u8] {
                        assert(contents@.len() == 1 && contents@[0] == 41u8);
                    }
                }
                r
            },
            _ => false,
        }
    }
}

fn is_require_bytes(b: &[u8]) -> (r: bool)
    ensures
        r == is_require(b@),
{
    let r = b.len() == 7 && b[0] == 114u8 && b[1] == 101u8 && b[2] == 113u8 && b[3] == 117u8 && b[4]
        == 105u8 && b[5] == 114u8 && b[6] == 101u8;
    proof {
        if r {
            assert(b@ =~= seq![114u8, 101u8, 113u8, 117u8, 105u8, 114u8, 101u8]);
        }
        if is_require(b@) {
            assert(b@.len() == 7);
            assert(b@[6] == 101u8);
        }
    }
    r
}

proof fn lemma_line_length_split(s: Seq<ConcreteLineToken>, start: int)
    requires
        0 <= start <= s.len(),
        forall|k: int| start <= k < s.len() ==> !(s[k] is HardNewLine),
        start == 0 || s[start - 1] is HardNewLine,
    ensures
        line_length(s) == line_length(s.subrange(start, s.len() as int)),
    decreases s.len(),
{
    if s.len() == start {
        assert(s.subrange(start, s.len() as int) =~= Seq::<ConcreteLineToken>::empty());
        if start > 0 {
            assert(s.last() is HardNewLine);
        }
    } else {
        lemma_line_length_split(s.drop_last(), start);
        assert(s.subrange(start, s.len() as int).drop_last() =~= s.drop_last().subrange(
            start,
            s.len() - 1,
        ));
    }
}


/// A `do` pushed on a line that so far is `<indent>) ` (the closing
/// parenthesis of a method call written across lines, then a space) gets no
/// blank line before it: it opens a block of that call.
pub proof fn law_no_blank_line_before_a_block_after_a_call(
    t: Seq<ConcreteLineToken>,
    idx: int,
    cur: LineMetadata,
    prev: Option<LineMetadata>,
)
    requires
        t.len() >= 4,
        t[t.len() - 4] is HardNewLine,
        t[t.len() - 3] is Indent,
        t[t.len() - 2] matches ConcreteLineToken::Delim { contents } && contents@ == seq![41u8],
        t[t.len() - 1] is Space,
    ensures
        push_model((t, idx, cur, prev), ConcreteLineToken::DoKeyword) == (
            t.push(ConcreteLineToken::DoKeyword),
            idx,
            LineMetadata { has_do_keyword: true, ..cur },
            prev,
        ),
{
}

/// A `do` pushed after a plain line gets a blank line before it unless the
/// line so far is exactly `<indent>) ` (a hard newline, an indent, the
/// delimiter `)` and a space): any other line is no block after a method
/// call.
pub proof fn law_blank_line_before_do_after_a_plain_line(
    t: Seq<ConcreteLineToken>,
    idx: int,
    cur: LineMetadata,
    p: LineMetadata,
)
    requires
        p.spec_wants_spacer(),
        !(t.len() >= 4 && t[t.len() - 4] is HardNewLine && t[t.len() - 3] is Indent && t[t.len()
            - 2] is Delim && t[t.len() - 2]->Delim_contents@ == seq![41u8] && t[t.len() - 1] is Space),
    ensures
        push_model((t, idx, cur, Some(p)), ConcreteLineToken::DoKeyword).0 == with_blankline(t, idx).0.push(
            ConcreteLineToken::DoKeyword,
        ),
{
}

/// Two intermediary states that are the same but for which vectors hold
/// their tokens' bytes.
pub open spec fn view_eq(a: IntermediaryView, b: IntermediaryView) -> bool {
    &&& crate::line_tokens::toks_eq(a.0, b.0)
    &&& a.1 == b.1
    &&& a.2 == b.2
    &&& a.3 == b.3
}

/// Pushing tokens that are the same up to vectors keeps sequences the same.
pub proof fn lemma_toks_push(a: Seq<ConcreteLineToken>, b: Seq<ConcreteLineToken>, x: ConcreteLineToken, y: ConcreteLineToken)
    requires
        crate::line_tokens::toks_eq(a, b),
        crate::line_tokens::tok_eq(x, y),
    ensures
        crate::line_tokens::toks_eq(a.push(x), b.push(y)),
{
    assert forall|i: int| 0 <= i < a.push(x).len() implies #[trigger] crate::line_tokens::tok_eq(a.push(x)[i], b.push(y)[i]) by {
        if i < a.len() {
            assert(crate::line_tokens::tok_eq(a[i], b[i]));
        }
    }
}

/// Inserting one token keeps sequences that are the same up to vectors the same.
pub proof fn lemma_toks_insert(a: Seq<ConcreteLineToken>, b: Seq<ConcreteLineToken>, k: int, x: ConcreteLineToken)
    requires
        crate::line_tokens::toks_eq(a, b),
        0 <= k <= a.len(),
    ensures
        crate::line_tokens::toks_eq(a.insert(k, x), b.insert(k, x)),
{
    assert forall|i: int| 0 <= i < a.insert(k, x).len() implies #[trigger] crate::line_tokens::tok_eq(
        a.insert(k, x)[i],
        b.insert(k, x)[i],
    ) by {
        if i < k {
            assert(crate::line_tokens::tok_eq(a[i], b[i]));
        } else if i > k {
            assert(crate::line_tokens::tok_eq(a[i - 1], b[i - 1]));
        }
    }
}

/// Removing one token keeps sequences that are the same up to vectors the same.
pub proof fn lemma_toks_remove(a: Seq<ConcreteLineToken>, b: Seq<ConcreteLineToken>, k: int)
    requires
        crate::line_tokens::toks_eq(a, b),
        0 <= k < a.len(),
    ensures
        crate::line_tokens::toks_eq(a.remove(k), b.remove(k)),
{
    assert forall|i: int| 0 <= i < a.remove(k).len() implies #[trigger] crate::line_tokens::tok_eq(
        a.remove(k)[i],
        b.remove(k)[i],
    ) by {
        if i < k {
            assert(crate::line_tokens::tok_eq(a[i], b[i]));
        } else {
            assert(crate::line_tokens::tok_eq(a[i + 1], b[i + 1]));
        }
    }
}

/// Dropping the last token keeps sequences that are the same up to vectors the same.
pub proof fn lemma_toks_drop_last(a: Seq<ConcreteLineToken>, b: Seq<ConcreteLineToken>)
    requires
        crate::line_tokens::toks_eq(a, b),
        a.len() > 0,
    ensures
        crate::line_tokens::toks_eq(a.drop_last(), b.drop_last()),
        crate::line_tokens::tok_eq(a.last(), b.last()),
{
    assert(crate::line_tokens::tok_eq(a[a.len() - 1], b[b.len() - 1]));
    assert forall|i: int| 0 <= i < a.drop_last().len() implies #[trigger] crate::line_tokens::tok_eq(
        a.drop_last()[i],
        b.drop_last()[i],
    ) by {
        assert(crate::line_tokens::tok_eq(a[i], b[i]));
    }
}

/// Line lengths see only the tokens' bytes.
pub proof fn lemma_line_length_eq(a: Seq<ConcreteLineToken>, b: Seq<ConcreteLineToken>)
    requires
        crate::line_tokens::toks_eq(a, b),
    ensures
        line_length(a) == line_length(b),
    decreases a.len(),
{
    if a.len() > 0 {
        lemma_toks_drop_last(a, b);
        crate::line_tokens::lemma_tok_eq(a.last(), b.last());
        lemma_line_length_eq(a.drop_last(), b.drop_last());
    }
}

/// Whether `class` or `module` comes first sees only the tokens' kinds.
proof fn lemma_class_or_module_eq(a: Seq<ConcreteLineToken>, b: Seq<ConcreteLineToken>, seen: nat)
    requires
        crate::line_tokens::toks_eq(a, b),
    ensures
        class_or_module_within(a, seen) == class_or_module_within(b, seen),
    decreases a.len(),
{
    if a.len() > 0 {
        lemma_toks_drop_last(a, b);
        crate::line_tokens::lemma_tok_eq(a.last(), b.last());
        lemma_class_or_module_eq(a.drop_last(), b.drop_last(), seen);
        lemma_class_or_module_eq(a.drop_last(), b.drop_last(), seen + 1);
    }
}

/// The questions the blank-line rules ask of the tokens get the same answers.
pub proof fn lemma_shape_eq(a: Seq<ConcreteLineToken>, b: Seq<ConcreteLineToken>, idx: int)
    requires
        crate::line_tokens::toks_eq(a, b),
    ensures
        blank_before(a, idx) == blank_before(b, idx),
        block_after_call(a) == block_after_call(b),
        forall|seen: nat| class_or_module_within(a, seen) == #[trigger] class_or_module_within(b, seen),
        forall|i: int| 0 <= i < a.len() ==> #[trigger] crate::line_tokens::tok_eq(a[i], b[i]),
        0 <= idx <= a.len() ==> crate::line_tokens::toks_eq(with_blankline(a, idx).0, with_blankline(b, idx).0),
        with_blankline(a, idx).1 == with_blankline(b, idx).1,
{
    let l = a.len() as int;
    if 0 <= idx < l {
        crate::line_tokens::lemma_tok_eq(a[idx], b[idx]);
    }
    if 1 <= idx && idx - 1 < l {
        crate::line_tokens::lemma_tok_eq(a[idx - 1], b[idx - 1]);
    }
    if 2 <= idx && idx - 2 < l {
        crate::line_tokens::lemma_tok_eq(a[idx - 2], b[idx - 2]);
    }
    if l >= 4 {
        crate::line_tokens::lemma_tok_eq(a[l - 4], b[l - 4]);
        crate::line_tokens::lemma_tok_eq(a[l - 3], b[l - 3]);
        crate::line_tokens::lemma_tok_eq(a[l - 2], b[l - 2]);
        crate::line_tokens::lemma_tok_eq(a[l - 1], b[l - 1]);
    }
    assert forall|seen: nat| class_or_module_within(a, seen) == #[trigger] class_or_module_within(b, seen) by {
        lemma_class_or_module_eq(a, b, seen);
    }
    if 0 <= idx <= a.len() {
        lemma_toks_insert(a, b, idx, ConcreteLineToken::HardNewLine);
    }
}

/// `push` sees only the tokens' bytes.
pub proof fn lemma_push_model_eq(v: IntermediaryView, w: IntermediaryView, x: ConcreteLineToken, y: ConcreteLineToken)
    requires
        view_eq(v, w),
        crate::line_tokens::tok_eq(x, y),
        0 <= v.1 <= v.0.len(),
    ensures
        view_eq(push_model(v, x), push_model(w, y)),
{
    let (t, idx, cur, prev) = v;
    let u = w.0;
    crate::line_tokens::lemma_tok_eq(x, y);
    lemma_shape_eq(t, u, idx);
    let l = t.len() as int;
    if l >= 2 {
        crate::line_tokens::lemma_tok_eq(t[l - 2], u[l - 2]);
        crate::line_tokens::lemma_tok_eq(t[l - 1], u[l - 1]);
    }
    match x {
        ConcreteLineToken::HardNewLine => {
            let b1 = if prev matches Some(p) && !cur.require && p.require {
                with_blankline(t, idx)
            } else {
                (t, idx)
            };
            let b2 = if prev matches Some(p) && !cur.require && p.require {
                with_blankline(u, idx)
            } else {
                (u, idx)
            };
            let l1 = b1.0.len() as int;
            if l1 >= 2 {
                crate::line_tokens::lemma_tok_eq(b1.0[l1 - 2], b2.0[l1 - 2]);
                crate::line_tokens::lemma_tok_eq(b1.0[l1 - 1], b2.0[l1 - 1]);
            }
            lemma_toks_push(b1.0, b2.0, x, y);
        },
        ConcreteLineToken::Comment { .. } => {
            if l >= 1 {
                lemma_toks_drop_last(t, u);
                lemma_toks_push(t.drop_last(), u.drop_last(), x, y);
            }
            lemma_toks_push(t, u, x, y);
            lemma_toks_push(with_blankline(t, idx).0, with_blankline(u, idx).0, x, y);
        },
        _ => {
            lemma_toks_push(t, u, x, y);
            lemma_toks_push(with_blankline(t, idx).0, with_blankline(u, idx).0, x, y);
        },
    }
}

/// Clearing garbage sees only the tokens' bytes.
pub proof fn lemma_cleared_garbage_eq(a: Seq<ConcreteLineToken>, b: Seq<ConcreteLineToken>)
    requires
        crate::line_tokens::toks_eq(a, b),
    ensures
        crate::line_tokens::toks_eq(cleared_garbage(a), cleared_garbage(b)),
    decreases a.len(),
{
    if a.len() >= 2 {
        crate::line_tokens::lemma_tok_eq(a[a.len() - 2], b[b.len() - 2]);
        if a[a.len() - 2].spec_is_garbage() {
            lemma_toks_remove(a, b, a.len() - 2);
            lemma_cleared_garbage_eq(a.remove(a.len() - 2), b.remove(b.len() - 2));
        }
    }
}

} // verus!
