use crate::delimiters::{block_params_delims, brace_block_delims, BreakableDelims};
use crate::line_tokens::{
    abstract_heredocs_ok, abstract_of, multi_line_count, multi_line_out, sat, single_line_count, single_line_out,
    token_len, tokens_len, AbstractLineToken, ConcreteLineToken, ConcreteLineTokenAndTargets,
};
use crate::parser_state::FormattingContext;
use crate::types::LineNumber;
use vstd::prelude::*;

verus! {

/// Inserts `input` into `target` at `idx`.
fn insert_at<T>(idx: usize, target: &mut Vec<T>, input: Vec<T>)
    requires
        idx <= old(target)@.len(),
    ensures
        final(target)@ == old(target)@.take(idx as int) + input@ + old(target)@.skip(idx as int),
{
    let mut input = input;
    let mut tail = target.split_off(idx);
    target.append(&mut input);
    target.append(&mut tail);
    assert(old(target)@.subrange(0, idx as int) =~= old(target)@.take(idx as int));
    assert(old(target)@.subrange(idx as int, old(target)@.len() as int) =~= old(target)@.skip(
        idx as int,
    ));
}

#[derive(Copy, Clone, Debug, PartialEq, Eq, Structural)]
pub enum ConvertType {
    MultiLine,
    SingleLine,
}

/// Whether every token that `rposition` would ask "are you a newline?" can be
/// asked: every unsafe token has a newline or an indent after it.
pub open spec fn scan_safe(s: Seq<ConcreteLineTokenAndTargets>) -> bool {
    forall|i: int|
        #![trigger s[i]]
        0 <= i < s.len() && !s[i].newline_safe() ==> exists|j: int|
            i < j < s.len() && (s[j].spec_is_newline() || s[j].spec_is_indent())
}

pub open spec fn abstract_scan_safe(s: Seq<AbstractLineToken>) -> bool {
    forall|i: int|
        #![trigger s[i]]
        0 <= i < s.len() && !s[i].newline_safe() ==> exists|j: int|
            i < j < s.len() && (s[j].spec_is_newline() || s[j].spec_is_indent())
}

/// The index of the last newline or indent in `s`, if any.
pub open spec fn last_break(s: Seq<ConcreteLineTokenAndTargets>) -> Option<int>
    decreases s.len(),
{
    if s.len() == 0 {
        None
    } else if s.last().spec_is_newline() || s.last().spec_is_indent() {
        Some(s.len() - 1)
    } else {
        last_break(s.drop_last())
    }
}

pub open spec fn abstract_last_break(s: Seq<AbstractLineToken>) -> Option<int>
    decreases s.len(),
{
    if s.len() == 0 {
        None
    } else if s.last().spec_is_newline() || s.last().spec_is_indent() {
        Some(s.len() - 1)
    } else {
        abstract_last_break(s.drop_last())
    }
}

pub proof fn lemma_last_break_bound(s: Seq<ConcreteLineTokenAndTargets>)
    ensures
        last_break(s) matches Some(i) ==> 0 <= i < s.len() && (s[i].spec_is_newline() || s[i].spec_is_indent()),
    decreases s.len(),
{
    if s.len() > 0 {
        lemma_last_break_bound(s.drop_last());
    }
}

pub proof fn lemma_abstract_last_break_bound(s: Seq<AbstractLineToken>)
    ensures
        abstract_last_break(s) matches Some(i) ==> 0 <= i < s.len() && (s[i].spec_is_newline()
            || s[i].spec_is_indent()),
    decreases s.len(),
{
    if s.len() > 0 {
        lemma_abstract_last_break_bound(s.drop_last());
    }
}

#[derive(Debug)]
pub struct BaseQueue {
    pub tokens: Vec<ConcreteLineTokenAndTargets>,
}

impl Default for BaseQueue {
    fn default() -> (r: Self)
        ensures
            r.tokens@.len() == 0,
    {
        BaseQueue { tokens: Vec::new() }
    }
}

impl BaseQueue {
    pub fn push(&mut self, lt: ConcreteLineTokenAndTargets)
        ensures
            final(self).tokens@ == old(self).tokens@.push(lt),
    {
        self.tokens.push(lt)
    }

    pub fn insert_at(&mut self, idx: usize, tokens: Vec<ConcreteLineTokenAndTargets>)
        requires
            idx <= old(self).tokens@.len(),
        ensures
            final(self).tokens@ == old(self).tokens@.take(idx as int) + tokens@ + old(
                self,
            ).tokens@.skip(idx as int),
    {
        insert_at(idx, &mut self.tokens, tokens)
    }

    pub fn into_tokens(self) -> (r: Vec<ConcreteLineTokenAndTargets>)
        ensures
            r@ == self.tokens@,
    {
        self.tokens
    }

    pub fn last_token_is_a_newline(&self) -> (r: bool)
        requires
            self.tokens@.len() > 0 ==> self.tokens@.last().newline_safe(),
        ensures
            r == (self.tokens@.len() > 0 && self.tokens@.last().spec_is_newline()),
    {
        let n = self.tokens.len();
        if n == 0 {
            false
        } else {
            self.tokens[n - 1].is_newline()
        }
    }

    pub fn index_of_prev_newline(&self) -> (r: Option<usize>)
        requires
            scan_safe(self.tokens@),
        ensures
            r == (match last_break(self.tokens@) {
                Some(i) => Some(i as usize),
                None => None::<usize>,
            }),
    {
        let mut i = self.tokens.len();
        assert(self.tokens@.take(i as int) =~= self.tokens@);
        while i > 0
            invariant
                i <= self.tokens@.len(),
                scan_safe(self.tokens@),
                forall|j: int| i <= j < self.tokens@.len() ==> !(#[trigger] self.tokens@[j].spec_is_newline()
                    || self.tokens@[j].spec_is_indent()),
                last_break(self.tokens@) == last_break(self.tokens@.take(i as int)),
            decreases i,
        {
            let t = &self.tokens[i - 1];
            proof {
                if !t.newline_safe() {
                    let j = choose|j: int|
                        i - 1 < j < self.tokens@.len() && (self.tokens@[j].spec_is_newline()
                            || self.tokens@[j].spec_is_indent());
                    assert(self.tokens@[j].spec_is_newline() || self.tokens@[j].spec_is_indent());
                }
                assert(self.tokens@.take(i as int).drop_last() =~= self.tokens@.take(i - 1));
            }
            if t.is_newline() || t.is_indent() {
                return Some(i - 1);
            }
            i = i - 1;
        }
        proof {
            assert(self.tokens@.take(0) =~= Seq::<ConcreteLineTokenAndTargets>::empty());
        }
        None
    }
}

/// Every heredoc carried by the tokens can be written out.
pub open spec fn all_heredocs_ok(s: Seq<AbstractLineToken>) -> bool {
    forall|i: int| 0 <= i < s.len() ==> abstract_heredocs_ok(#[trigger] s[i])
}

/// `w` is what the tokens `ts` become, token after token, on a single line.
pub open spec fn all_single_line_out(ts: Seq<AbstractLineToken>, w: Seq<ConcreteLineTokenAndTargets>) -> bool
    decreases ts.len(),
{
    if ts.len() == 0 {
        w.len() == 0
    } else {
        let c = single_line_count(ts.last());
        &&& w.len() >= c
        &&& all_single_line_out(ts.drop_last(), w.take(w.len() - c))
        &&& single_line_out(ts.last(), w.skip(w.len() - c))
    }
}

/// `w` is what the tokens `ts` become, token after token, across lines.
pub open spec fn all_multi_line_out(ts: Seq<AbstractLineToken>, w: Seq<ConcreteLineTokenAndTargets>) -> bool
    decreases ts.len(),
{
    if ts.len() == 0 {
        w.len() == 0
    } else {
        let c = multi_line_count(ts.last());
        &&& w.len() >= c
        &&& all_multi_line_out(ts.drop_last(), w.take(w.len() - c))
        &&& multi_line_out(ts.last(), w.skip(w.len() - c))
    }
}

/// Writes every token of `tokens`, in order, on a single line or across lines.
fn write_all(tokens: Vec<AbstractLineToken>, ct: ConvertType, out: &mut Vec<ConcreteLineTokenAndTargets>)
    requires
        all_heredocs_ok(tokens@),
    ensures
        final(out)@.take(old(out)@.len() as int) == old(out)@,
        final(out)@.len() >= old(out)@.len(),
        ct == ConvertType::SingleLine ==> all_single_line_out(
            tokens@,
            final(out)@.skip(old(out)@.len() as int),
        ),
        ct == ConvertType::MultiLine ==> all_multi_line_out(
            tokens@,
            final(out)@.skip(old(out)@.len() as int),
        ),
{
    let ghost ts = tokens@;
    let ghost start = out@;
    let mut tokens = tokens;
    let n = tokens.len();
    let mut i: usize = 0;
    while i < n
        invariant
            n == ts.len(),
            i <= n,
            all_heredocs_ok(ts),
            tokens@ == ts.skip(i as int),
            out@.len() >= start.len(),
            out@.take(start.len() as int) == start,
            ct == ConvertType::SingleLine ==> all_single_line_out(
                ts.take(i as int),
                out@.skip(start.len() as int),
            ),
            ct == ConvertType::MultiLine ==> all_multi_line_out(
                ts.take(i as int),
                out@.skip(start.len() as int),
            ),
        decreases n - i,
    {
        let t = tokens.remove(0);
        assert(t == ts[i as int]);
        assert(abstract_heredocs_ok(ts[i as int]));
        assert(ts.skip(i as int).remove(0) =~= ts.skip(i + 1));
        assert(ts.take(i + 1).drop_last() =~= ts.take(i as int));
        let ghost before = out@;
        match ct {
            ConvertType::MultiLine => t.write_multi_line(out),
            ConvertType::SingleLine => t.write_single_line(out),
        }
        proof {
            let w = out@.skip(start.len() as int);
            let neww = out@.skip(before.len() as int);
            assert(w.take(w.len() - neww.len()) =~= before.skip(start.len() as int));
            assert(w.skip(w.len() - neww.len()) =~= neww);
            assert(out@.take(start.len() as int) =~= start) by {
                assert forall|k: int| 0 <= k < start.len() implies out@[k] == start[k] by {
                    assert(before.take(start.len() as int)[k] == start[k]);
                    assert(out@.take(before.len() as int)[k] == before[k]);
                }
            }
        }
        i = i + 1;
    }
    assert(ts.take(n as int) =~= ts);
}

/// The behaviour shared by the two kinds of breakable entries.
pub trait AbstractTokenTarget: std::fmt::Debug + Sized {
    spec fn spec_tokens(&self) -> Seq<AbstractLineToken>;

    spec fn spec_is_multiline(&self) -> bool;

    spec fn spec_any_heredoc(&self) -> bool;

    /// The line length when rendered on one line after `current` bytes.
    spec fn spec_single_line_string_length(&self, current: nat) -> nat;

    /// How many tokens are written before (and as many after) the contents.
    spec fn spec_frame_len(&self) -> nat;

    /// Whether `o` and `c` are the tokens written before and after the contents.
    spec fn spec_frame(&self, ct: ConvertType, o: Seq<ConcreteLineTokenAndTargets>, c: Seq<
        ConcreteLineTokenAndTargets,
    >) -> bool;

    fn push(&mut self, lt: AbstractLineToken)
        ensures
            final(self).spec_tokens() == old(self).spec_tokens().push(lt),
    ;

    fn write_tokens(self, ct: ConvertType, out: &mut Vec<ConcreteLineTokenAndTargets>)
        requires
            all_heredocs_ok(self.spec_tokens()),
        ensures
            final(out)@.take(old(out)@.len() as int) == old(out)@,
            ({
                let w = final(out)@.skip(old(out)@.len() as int);
                let f = self.spec_frame_len() as int;
                &&& w.len() >= 2 * f
                &&& self.spec_frame(ct, w.take(f), w.skip(w.len() - f))
                &&& ct == ConvertType::SingleLine ==> all_single_line_out(
                    self.spec_tokens(),
                    w.subrange(f, w.len() - f),
                )
                &&& ct == ConvertType::MultiLine ==> all_multi_line_out(
                    self.spec_tokens(),
                    w.subrange(f, w.len() - f),
                )
            }),
    ;

    fn is_multiline(&self) -> (r: bool)
        ensures
            r == self.spec_is_multiline(),
    ;

    fn single_line_string_length(&self, current_line_length: usize) -> (r: usize)
        ensures
            r == sat(self.spec_single_line_string_length(current_line_length as nat)),
    ;

    fn tokens(&self) -> (r: &Vec<AbstractLineToken>)
        ensures
            r@ == self.spec_tokens(),
    ;

    fn any_collapsing_newline_has_heredoc_content(&self) -> (r: bool)
        ensures
            r == self.spec_any_heredoc(),
    ;

    fn len(&self) -> (r: usize)
        ensures
            r == self.spec_tokens().len(),
    {
        self.tokens().len()
    }

    /// The position after the last newline (or at the last indent).
    fn index_of_prev_newline(&self) -> (r: Option<usize>)
        requires
            abstract_scan_safe(self.spec_tokens()),
        ensures
            r == (match abstract_last_break(self.spec_tokens()) {
                Some(i) => if self.spec_tokens()[i] is CollapsingNewLine || self.spec_tokens()[i] is SoftNewline {
                    Some((i + 1) as usize)
                } else {
                    Some(i as usize)
                },
                None => None::<usize>,
            }),
    {
        let tokens = self.tokens();
        let mut i = tokens.len();
        assert(tokens@.take(i as int) =~= tokens@);
        while i > 0
            invariant
                tokens@ == self.spec_tokens(),
                i <= tokens@.len(),
                abstract_scan_safe(tokens@),
                forall|j: int| i <= j < tokens@.len() ==> !(#[trigger] tokens@[j].spec_is_newline()
                    || tokens@[j].spec_is_indent()),
                abstract_last_break(tokens@) == abstract_last_break(tokens@.take(i as int)),
            decreases i,
        {
            let t = &tokens[i - 1];
            proof {
                if !t.newline_safe() {
                    let j = choose|j: int|
                        i - 1 < j < tokens@.len() && (tokens@[j].spec_is_newline()
                            || tokens@[j].spec_is_indent());
                    assert(tokens@[j].spec_is_newline() || tokens@[j].spec_is_indent());
                }
                assert(tokens@.take(i as int).drop_last() =~= tokens@.take(i - 1));
            }
            if t.is_newline() || t.is_indent() {
                let x = i - 1;
                if matches!(t, AbstractLineToken::CollapsingNewLine(_)) || matches!(
                    t,
                    AbstractLineToken::SoftNewline(_)
                ) {
                    return Some(x + 1);
                } else {
                    return Some(x);
                }
            }
            i = i - 1;
        }
        proof {
            assert(tokens@.take(0) =~= Seq::<AbstractLineToken>::empty());
        }
        None
    }

    fn last_token_is_a_newline(&self) -> (r: bool)
        requires
            self.spec_tokens().len() > 0 ==> self.spec_tokens().last().newline_safe(),
        ensures
            r == (self.spec_tokens().len() > 0 && self.spec_tokens().last().spec_is_newline()),
    {
        let tokens = self.tokens();
        let n = tokens.len();
        if n == 0 {
            false
        } else {
            tokens[n - 1].is_newline()
        }
    }
}

/// Whether a token carries heredoc content in a newline (looking into nested
/// delimited entries).
pub open spec fn token_has_heredoc(t: AbstractLineToken) -> bool
    decreases t,
{
    match t {
        AbstractLineToken::CollapsingNewLine(h) => h is Some,
        AbstractLineToken::SoftNewline(h) => h is Some,
        AbstractLineToken::BreakableEntry(be) => seq_has_heredoc(be.tokens@),
        _ => false,
    }
}

pub open spec fn seq_has_heredoc(s: Seq<AbstractLineToken>) -> bool
    decreases s,
{
    if s.len() == 0 {
        false
    } else {
        seq_has_heredoc(s.drop_last()) || token_has_heredoc(s.last())
    }
}

pub open spec fn has_hard_newline(s: Seq<AbstractLineToken>) -> bool {
    exists|i: int|
        0 <= i < s.len() && #[trigger] s[i] == AbstractLineToken::ConcreteLineToken(
            ConcreteLineToken::HardNewLine,
        )
}

/// The entries of a delimited expression (arguments, arrays, hashes, ...)
/// that is laid out on one line or across lines.
#[derive(Debug)]
pub struct BreakableEntry {
    pub tokens: Vec<AbstractLineToken>,
    pub multiline_tracker: MultilineTracker,
    pub delims: BreakableDelims,
    pub in_string_embexpr: bool,
}

impl BreakableEntry {
    pub open spec fn spec_multiline(&self) -> bool {
        self.multiline_tracker.is_multiline || seq_has_heredoc(self.tokens@) || has_hard_newline(
            self.tokens@,
        )
    }

    pub open spec fn spec_single_line_len(&self) -> nat {
        sat(sat(tokens_len(self.tokens@)) + self.delims@.0.len() + self.delims@.1.len())
    }

    pub open spec fn spec_params_only_len(&self) -> nat {
        if self.tokens@.len() > 0 && self.tokens@[0] is BreakableEntry
            && self.tokens@[0]->BreakableEntry_0.delims@ == block_params_delims() {
            sat(self.tokens@[0]->BreakableEntry_0.spec_single_line_len() + self.delims@.0.len()
                + self.delims@.1.len())
        } else {
            0
        }
    }
}

/// Whether any formatting context is an expression embedded in a string.
pub open spec fn spec_in_embexpr(fc: Seq<FormattingContext>) -> bool {
    exists|i: int| 0 <= i < fc.len() && fc[i] == FormattingContext::StringEmbexpr
}

fn in_embexpr(formatting_context: &[FormattingContext]) -> (r: bool)
    ensures
        r == spec_in_embexpr(formatting_context@),
{
    let mut i: usize = 0;
    while i < formatting_context.len()
        invariant
            i <= formatting_context@.len(),
            forall|j: int| 0 <= j < i ==> formatting_context@[j] != FormattingContext::StringEmbexpr,
        decreases formatting_context@.len() - i,
    {
        if formatting_context[i] == FormattingContext::StringEmbexpr {
            return true;
        }
        i = i + 1;
    }
    false
}

/// Sums the single-line lengths of `tokens`, saturating at `usize::MAX`.
fn sum_single_line_len(tokens: &Vec<AbstractLineToken>) -> (r: usize)
    ensures
        r == sat(tokens_len(tokens@)),
    decreases tokens@, 1nat,
{
    let mut acc: usize = 0;
    let mut i: usize = 0;
    while i < tokens.len()
        invariant
            i <= tokens@.len(),
            acc == sat(tokens_len(tokens@.take(i as int))),
        decreases tokens@.len() - i,
    {
        assert(tokens@.take(i + 1).drop_last() =~= tokens@.take(i as int));
        assert(decreases_to!(tokens@ => tokens@[i as int]));
        let l = tokens[i].single_line_len();
        acc = acc.saturating_add(l);
        i = i + 1;
    }
    assert(tokens@.take(i as int) =~= tokens@);
    acc
}

impl AbstractLineToken {
    /// Returns the length of this token when rendered as single-line, without
    /// allocating. Heredocs count as longer than `MAX_LINE_LENGTH`. Saturates at
    /// `usize::MAX`.
    pub fn single_line_len(&self) -> (r: usize)
        ensures
            r == sat(token_len(*self)),
        decreases *self, 0nat,
    {
        match self {
            Self::CollapsingNewLine(heredoc_strings) => {
                if heredoc_strings.is_some() {
                    crate::render_queue_writer::MAX_LINE_LENGTH + 1
                } else {
                    0
                }
            },
            Self::SoftNewline(heredoc_strings) => {
                if heredoc_strings.is_some() {
                    crate::render_queue_writer::MAX_LINE_LENGTH + 1
                } else {
                    1
                }
            },
            Self::SoftIndent { .. } => 0,
            Self::ConcreteLineToken(clt) => clt.len(),
            Self::BreakableEntry(be) => {
                assert(decreases_to!(*self => be.tokens@));
                let a = sum_single_line_len(&be.tokens);
                let d = be.delims.single_line_len();
                a.saturating_add(d)
            },
            Self::BreakableCallChainEntry(bcce) => {
                assert(decreases_to!(*self => bcce.tokens@));
                sum_single_line_len(&bcce.tokens)
            },
        }
    }
}


impl AbstractTokenTarget for BreakableEntry {
    open spec fn spec_tokens(&self) -> Seq<AbstractLineToken> {
        self.tokens@
    }

    open spec fn spec_is_multiline(&self) -> bool {
        self.spec_multiline()
    }

    open spec fn spec_any_heredoc(&self) -> bool {
        seq_has_heredoc(self.tokens@)
    }

    open spec fn spec_single_line_string_length(&self, current: nat) -> nat {
        self.spec_single_line_len() + current
    }

    open spec fn spec_frame_len(&self) -> nat {
        1
    }

    open spec fn spec_frame(&self, ct: ConvertType, o: Seq<ConcreteLineTokenAndTargets>, c: Seq<
        ConcreteLineTokenAndTargets,
    >) -> bool {
        &&& o.len() == 1
        &&& c.len() == 1
        &&& is_delim_with(o[0], delim_bytes(self.delims@, ct, true))
        &&& is_delim_with(c[0], delim_bytes(self.delims@, ct, false))
    }

    fn push(&mut self, lt: AbstractLineToken)
        ensures
            final(self).multiline_tracker == old(self).multiline_tracker,
            final(self).delims == old(self).delims,
            final(self).in_string_embexpr == old(self).in_string_embexpr,
    {
        self.tokens.push(lt);
    }

    fn write_tokens(self, ct: ConvertType, out: &mut Vec<ConcreteLineTokenAndTargets>)
        ensures
            final(out)@.len() >= old(out)@.len() + 2,
            final(out)@[old(out)@.len() as int] == ConcreteLineTokenAndTargets::ConcreteLineToken(
                self.delims.open_token(ct),
            ),
            final(out)@.last() == ConcreteLineTokenAndTargets::ConcreteLineToken(self.delims.close_token(ct)),
    {
        let ghost start = out@;
        let ghost d = self.delims@;
        let ghost ts = self.tokens@;
        proof {
            self.delims.lemma_delim_tokens(ct);
        }
        let BreakableEntry { delims, tokens, .. } = self;
        let (open, close) = delims.into_tokens(ct);
        let ghost og = ConcreteLineTokenAndTargets::ConcreteLineToken(open);
        let ghost cg = ConcreteLineTokenAndTargets::ConcreteLineToken(close);
        out.push(ConcreteLineTokenAndTargets::ConcreteLineToken(open));
        let ghost mid = out@;
        write_all(tokens, ct, out);
        let ghost mid2 = out@;
        out.push(ConcreteLineTokenAndTargets::ConcreteLineToken(close));
        proof {
            let w = out@.skip(start.len() as int);
            assert(mid[start.len() as int] == og);
            assert(mid2[start.len() as int] == mid2.take(mid.len() as int)[start.len() as int]);
            assert(w[0] == og);
            assert(w.take(1) =~= seq![og]);
            assert(w.skip(w.len() - 1) =~= seq![cg]);
            assert(is_delim_with(og, delim_bytes(d, ct, true)));
            assert(is_delim_with(cg, delim_bytes(d, ct, false)));
            assert(w.subrange(1, w.len() - 1) =~= mid2.skip(mid.len() as int));
            assert(out@.take(start.len() as int) =~= start) by {
                assert forall|k: int| 0 <= k < start.len() implies out@[k] == start[k] by {
                    assert(mid.take(start.len() as int)[k] == start[k]);
                    assert(mid2.take(mid.len() as int)[k] == mid[k]);
                }
            }
        }
    }

    fn single_line_string_length(&self, current_line_length: usize) -> (r: usize) {
        self.single_line_len().saturating_add(current_line_length)
    }

    fn is_multiline(&self) -> (r: bool) {
        self.multiline_tracker.is_multiline() || self.any_collapsing_newline_has_heredoc_content()
            || self.contains_hard_newline()
    }

    fn tokens(&self) -> (r: &Vec<AbstractLineToken>) {
        &self.tokens
    }

    fn any_collapsing_newline_has_heredoc_content(&self) -> (r: bool) {
        any_heredoc(&self.tokens)
    }
}

/// Whether `t` is a delimiter token holding `bytes`.
pub open spec fn is_delim_with(t: ConcreteLineTokenAndTargets, bytes: Seq<u8>) -> bool {
    t matches ConcreteLineTokenAndTargets::ConcreteLineToken(ConcreteLineToken::Delim { contents })
        && contents@ == bytes
}

/// The bytes of the delimiter token of a layout.
pub open spec fn delim_bytes(d: crate::delimiters::DelimsView, ct: ConvertType, open: bool) -> Seq<u8> {
    if ct == ConvertType::MultiLine {
        if open {
            d.2
        } else {
            d.3
        }
    } else {
        if open {
            d.0
        } else {
            d.1
        }
    }
}

/// Whether any token carries heredoc content in a newline.
fn any_heredoc(tokens: &Vec<AbstractLineToken>) -> (r: bool)
    ensures
        r == seq_has_heredoc(tokens@),
    decreases tokens@, 1nat,
{
    let mut i: usize = 0;
    let mut found = false;
    while i < tokens.len()
        invariant
            i <= tokens@.len(),
            found == seq_has_heredoc(tokens@.take(i as int)),
        decreases tokens@.len() - i,
    {
        assert(tokens@.take(i + 1).drop_last() =~= tokens@.take(i as int));
        assert(decreases_to!(tokens@ => tokens@[i as int]));
        let h = token_any_heredoc(&tokens[i]);
        found = found || h;
        i = i + 1;
    }
    assert(tokens@.take(i as int) =~= tokens@);
    found
}

fn token_any_heredoc(t: &AbstractLineToken) -> (r: bool)
    ensures
        r == token_has_heredoc(*t),
    decreases *t, 0nat,
{
    match t {
        AbstractLineToken::CollapsingNewLine(h) => h.is_some(),
        AbstractLineToken::SoftNewline(h) => h.is_some(),
        AbstractLineToken::BreakableEntry(be) => {
            assert(decreases_to!(*t => be.tokens@));
            any_heredoc(&be.tokens)
        },
        _ => false,
    }
}

impl BreakableEntry {
    pub fn new(delims: BreakableDelims, formatting_context: &[FormattingContext]) -> (r: Self)
        ensures
            r.tokens@.len() == 0,
            r.multiline_tracker.first_line is None,
            !r.multiline_tracker.is_multiline,
            r.delims@ == delims@,
            r.in_string_embexpr == spec_in_embexpr(formatting_context@),
    {
        let in_string_embexpr = in_embexpr(formatting_context);
        BreakableEntry {
            tokens: Vec::new(),
            multiline_tracker: MultilineTracker::new(),
            delims,
            in_string_embexpr,
        }
    }

    pub fn insert_at(&mut self, idx: usize, tokens: Vec<AbstractLineToken>)
        requires
            idx <= old(self).tokens@.len(),
        ensures
            final(self).tokens@ == old(self).tokens@.take(idx as int) + tokens@ + old(
                self,
            ).tokens@.skip(idx as int),
            final(self).multiline_tracker == old(self).multiline_tracker,
            final(self).delims@ == old(self).delims@,
            final(self).in_string_embexpr == old(self).in_string_embexpr,
    {
        insert_at(idx, &mut self.tokens, tokens)
    }

    pub fn push_line_number(&mut self, number: LineNumber)
        ensures
            final(self).multiline_tracker == old(self).multiline_tracker.after_line(number),
            final(self).tokens == old(self).tokens,
            final(self).delims@ == old(self).delims@,
            final(self).in_string_embexpr == old(self).in_string_embexpr,
    {
        self.multiline_tracker.on_line(number);
    }

    pub fn in_string_embexpr(&self) -> (r: bool)
        ensures
            r == self.in_string_embexpr,
    {
        self.in_string_embexpr
    }

    pub fn contains_hard_newline(&self) -> (r: bool)
        ensures
            r == has_hard_newline(self.tokens@),
    {
        let mut i: usize = 0;
        while i < self.tokens.len()
            invariant
                i <= self.tokens@.len(),
                forall|j: int|
                    0 <= j < i ==> self.tokens@[j] != AbstractLineToken::ConcreteLineToken(
                        ConcreteLineToken::HardNewLine,
                    ),
            decreases self.tokens@.len() - i,
        {
            if matches!(&self.tokens[i], AbstractLineToken::ConcreteLineToken(ConcreteLineToken::HardNewLine)) {
                return true;
            }
            i = i + 1;
        }
        false
    }

    /// The length of the entry on one line, delimiters included (saturating).
    pub fn single_line_len(&self) -> (r: usize)
        ensures
            r == self.spec_single_line_len(),
    {
        let a = sum_single_line_len(&self.tokens);
        let d = self.delims.single_line_len();
        a.saturating_add(d)
    }

    /// Returns the single-line length of just the block params (if any),
    /// excluding the body. Used by call chain line length calculation.
    pub fn single_line_len_params_only(&self) -> (r: usize)
        ensures
            r == self.spec_params_only_len(),
    {
        if self.tokens.len() > 0 {
            if let AbstractLineToken::BreakableEntry(params) = &self.tokens[0] {
                let bp = BreakableDelims::for_block_params();
                if params.delims.same_as(&bp) {
                    return params.single_line_len().saturating_add(self.delims.single_line_len());
                }
            }
        }
        0
    }
}

/// Whether a token is the parameter list of a block.
pub open spec fn is_block_params(t: AbstractLineToken) -> bool {
    t is BreakableEntry && t->BreakableEntry_0.delims@ == block_params_delims()
}

/// The length of `s` once its trailing tokens are dropped up to (not
/// including) the last block parameter list.
pub open spec fn len_up_to_params(s: Seq<AbstractLineToken>) -> int
    decreases s.len(),
{
    if s.len() == 0 {
        0
    } else if is_block_params(s.last()) {
        s.len() as int
    } else {
        len_up_to_params(s.drop_last())
    }
}

pub open spec fn is_call_op(t: AbstractLineToken) -> bool {
    t matches AbstractLineToken::ConcreteLineToken(ConcreteLineToken::Dot)
        || t matches AbstractLineToken::ConcreteLineToken(ConcreteLineToken::LonelyOperator)
}

pub open spec fn count_calls(s: Seq<AbstractLineToken>) -> nat
    decreases s.len(),
{
    if s.len() == 0 {
        0
    } else {
        count_calls(s.drop_last()) + if is_call_op(s.last()) {
            1nat
        } else {
            0nat
        }
    }
}

/// Where the tokens of a call chain stop counting, and which brace block
/// counts only its parameters: after a trailing `end` block, everything after
/// the block parameters is dropped.
pub open spec fn chain_stage1(toks: Seq<AbstractLineToken>) -> (int, Option<int>) {
    let n = toks.len() as int;
    if n > 2 {
        if toks[n - 2] matches AbstractLineToken::ConcreteLineToken(ConcreteLineToken::End) {
            (len_up_to_params(toks), None)
        } else if toks[n - 2] is BreakableEntry && toks[n - 2]->BreakableEntry_0.delims@
            == brace_block_delims() {
            (n, Some(n - 2))
        } else {
            (n, None)
        }
    } else {
        (n, None)
    }
}

/// A leading delimited entry (the receiver) does not count.
pub open spec fn chain_stage2(toks: Seq<AbstractLineToken>, hi1: int, bp1: Option<int>) -> (int, Option<int>) {
    if hi1 > 0 && toks[0] is BreakableEntry {
        (
            1,
            match bp1 {
                Some(x) => Some(x - 1),
                None => None,
            },
        )
    } else {
        (0, bp1)
    }
}

/// A trailing end-of-chain indent marker does not count.
pub open spec fn chain_stage3(toks: Seq<AbstractLineToken>, lo: int, hi1: int) -> int {
    if hi1 > lo && toks[hi1 - 1] matches AbstractLineToken::ConcreteLineToken(
        ConcreteLineToken::EndCallChainIndent,
    ) {
        hi1 - 1
    } else {
        hi1
    }
}

/// A trailing multi-line entry (or the argument list of a single call) that
/// is not a block does not count.
pub open spec fn chain_stage4(toks: Seq<AbstractLineToken>, lo: int, hi3: int, bp2: Option<int>) -> (int, Option<int>) {
    let calls = count_calls(toks.subrange(lo, hi3));
    if hi3 > lo && toks[hi3 - 1] is BreakableEntry && (calls == 1
        || toks[hi3 - 1]->BreakableEntry_0.spec_multiline()) && toks[hi3
        - 1]->BreakableEntry_0.delims@ != brace_block_delims() && toks[hi3
        - 1]->BreakableEntry_0.delims@ != block_params_delims() {
        (hi3 - 1, if bp2 == Some(hi3 - lo - 1) {
            None
        } else {
            bp2
        })
    } else {
        (hi3, bp2)
    }
}

/// The part of a call chain's tokens whose length counts on one line:
/// `(lo, hi, params)`, where `params` is the position (from `lo`) of a trailing
/// brace block of which only the parameters count.
pub open spec fn chain_window(toks: Seq<AbstractLineToken>) -> (int, int, Option<int>) {
    let (hi1, bp1) = chain_stage1(toks);
    let (lo, bp2) = chain_stage2(toks, hi1, bp1);
    let hi3 = chain_stage3(toks, lo, hi1);
    let (hi4, bp4) = chain_stage4(toks, lo, hi3, bp2);
    (lo, hi4, bp4)
}

pub open spec fn opt_usize(o: Option<usize>) -> Option<int> {
    match o {
        Some(x) => Some(x as int),
        None => None,
    }
}

proof fn lemma_len_up_to_params(s: Seq<AbstractLineToken>)
    ensures
        0 <= len_up_to_params(s) <= s.len(),
    decreases s.len(),
{
    if s.len() > 0 && !is_block_params(s.last()) {
        lemma_len_up_to_params(s.drop_last());
    }
}

/// The saturating sum of the lengths of `s`, counting only the parameters of
/// the token at `params`.
pub open spec fn chain_sum(s: Seq<AbstractLineToken>, params: Option<int>) -> nat
    decreases s.len(),
{
    if s.len() == 0 {
        0
    } else {
        let i = s.len() - 1;
        let l = if params == Some(i) && s.last() is BreakableEntry {
            s.last()->BreakableEntry_0.spec_params_only_len()
        } else {
            sat(token_len(s.last()))
        };
        sat(chain_sum(s.drop_last(), params) + l)
    }
}

/// A chain of method calls (`a.b(..).c { .. }`) that is laid out on one line
/// or across lines.
#[derive(Debug)]
pub struct BreakableCallChainEntry {
    pub tokens: Vec<AbstractLineToken>,
    pub is_user_multilined: bool,
    pub in_string_embexpr: bool,
}

impl BreakableCallChainEntry {
    pub open spec fn begins_with_heredoc_spec(&self) -> bool {
        self.tokens@.len() > 0 && self.tokens@[0] matches AbstractLineToken::ConcreteLineToken(
            ConcreteLineToken::HeredocStart { .. },
        )
    }
}

impl AbstractTokenTarget for BreakableCallChainEntry {
    open spec fn spec_tokens(&self) -> Seq<AbstractLineToken> {
        self.tokens@
    }

    open spec fn spec_is_multiline(&self) -> bool {
        self.begins_with_heredoc_spec() || self.is_user_multilined
    }

    open spec fn spec_any_heredoc(&self) -> bool {
        seq_has_heredoc(self.tokens@) || self.begins_with_heredoc_spec()
    }

    open spec fn spec_single_line_string_length(&self, current: nat) -> nat {
        let (lo, hi, bp) = chain_window(self.tokens@);
        chain_sum(self.tokens@.subrange(lo, hi), bp) + current
    }

    open spec fn spec_frame_len(&self) -> nat {
        0
    }

    open spec fn spec_frame(&self, ct: ConvertType, o: Seq<ConcreteLineTokenAndTargets>, c: Seq<
        ConcreteLineTokenAndTargets,
    >) -> bool {
        o.len() == 0 && c.len() == 0
    }

    fn push(&mut self, lt: AbstractLineToken)
        ensures
            final(self).is_user_multilined == old(self).is_user_multilined,
            final(self).in_string_embexpr == old(self).in_string_embexpr,
    {
        self.tokens.push(lt);
    }

    fn write_tokens(self, ct: ConvertType, out: &mut Vec<ConcreteLineTokenAndTargets>) {
        let ghost start = out@;
        write_all(self.tokens, ct, out);
        proof {
            let w = out@.skip(start.len() as int);
            assert(w.take(0) =~= Seq::<ConcreteLineTokenAndTargets>::empty());
            assert(w.skip(w.len() as int) =~= Seq::<ConcreteLineTokenAndTargets>::empty());
            assert(w.subrange(0, w.len() as int) =~= w);
        }
    }

    #[verifier::rlimit(60)]
    fn single_line_string_length(&self, current_line_length: usize) -> (r: usize) {
        // Call chains may hold multi-line blocks, which are long vertically even
        // when they are short horizontally: the block contents handle their own
        // line length, so only the chain up to the block parameters counts.
        let ghost toks = self.tokens@;
        let n = self.tokens.len();
        let mut hi: usize = n;
        let mut lo: usize = 0;
        let mut bp: Option<usize> = None;
        if n > 2 {
            let index = n - 2;
            if matches!(&self.tokens[index], AbstractLineToken::ConcreteLineToken(ConcreteLineToken::End)) {
                let params = BreakableDelims::for_block_params();
                assert(toks.take(hi as int) =~= toks);
                while hi > 0
                    invariant
                        hi <= n,
                        n == toks.len(),
                        toks == self.tokens@,
                        params@ == block_params_delims(),
                        len_up_to_params(toks) == len_up_to_params(toks.take(hi as int)),
                    ensures
                        hi as int == len_up_to_params(toks),
                    decreases hi,
                {
                    assert(toks.take(hi as int).drop_last() =~= toks.take(hi - 1));
                    assert(toks.take(hi as int).last() == toks[hi - 1]);
                    if let AbstractLineToken::BreakableEntry(be) = &self.tokens[hi - 1] {
                        if be.delims.same_as(&params) {
                            break ;
                        }
                    }
                    hi = hi - 1;
                }
            } else if let AbstractLineToken::BreakableEntry(be) = &self.tokens[index] {
                let bb = BreakableDelims::for_brace_block();
                if be.delims.same_as(&bb) {
                    bp = Some(index);
                }
            }
        }
        proof {
            lemma_len_up_to_params(toks);
        }
        assert((hi as int, opt_usize(bp)) == chain_stage1(toks));
        let ghost bp1 = opt_usize(bp);
        if hi > 0 {
            if let AbstractLineToken::BreakableEntry(_) = &self.tokens[0] {
                if let Some(idx) = bp {
                    bp = Some(idx - 1);
                }
                lo = 1;
            }
        }
        assert((lo as int, opt_usize(bp)) == chain_stage2(toks, hi as int, bp1));
        let ghost hi1 = hi as int;
        if hi > lo && matches!(
            &self.tokens[hi - 1],
            AbstractLineToken::ConcreteLineToken(ConcreteLineToken::EndCallChainIndent)
        ) {
            hi = hi - 1;
        }
        assert(hi as int == chain_stage3(toks, lo as int, hi1));
        let ghost bp2 = opt_usize(bp);
        let ghost hi3 = hi as int;
        let call_count = count_call_ops(&self.tokens, lo, hi);
        if hi > lo {
            if let AbstractLineToken::BreakableEntry(be) = &self.tokens[hi - 1] {
                let bb = BreakableDelims::for_brace_block();
                let params = BreakableDelims::for_block_params();
                if (call_count == 1 || be.is_multiline()) && !be.delims.same_as(&bb)
                    && !be.delims.same_as(&params) {
                    if let Some(params_index) = bp {
                        if params_index == hi - lo - 1 {
                            bp = None;
                        }
                    }
                    hi = hi - 1;
                }
            }
        }
        assert((hi as int, opt_usize(bp)) == chain_stage4(toks, lo as int, hi3, bp2));
        let ghost window = chain_window(toks);
        assert(window.0 == lo && window.1 == hi && window.2 == opt_usize(bp));
        let mut acc: usize = 0;
        let mut i: usize = lo;
        assert(self.tokens@.subrange(lo as int, lo as int) =~= Seq::<AbstractLineToken>::empty());
        while i < hi
            invariant
                lo <= i <= hi,
                hi <= self.tokens@.len(),
                acc == chain_sum(self.tokens@.subrange(lo as int, i as int), window.2),
                window.2 == opt_usize(bp),
            decreases hi - i,
        {
            let ghost sub = self.tokens@.subrange(lo as int, i + 1);
            assert(sub.drop_last() =~= self.tokens@.subrange(lo as int, i as int));
            assert(sub.last() == self.tokens@[i as int]);
            let t = &self.tokens[i];
            let l = match (bp, t) {
                (Some(params_only_idx), AbstractLineToken::BreakableEntry(be)) => {
                    if params_only_idx == i - lo {
                        be.single_line_len_params_only()
                    } else {
                        t.single_line_len()
                    }
                },
                _ => t.single_line_len(),
            };
            acc = acc.saturating_add(l);
            i = i + 1;
        }
        acc.saturating_add(current_line_length)
    }

    fn is_multiline(&self) -> (r: bool) {
        if self.begins_with_heredoc() {
            return true;
        }
        self.is_user_multilined
    }

    fn tokens(&self) -> (r: &Vec<AbstractLineToken>) {
        &self.tokens
    }

    fn any_collapsing_newline_has_heredoc_content(&self) -> (r: bool) {
        any_heredoc(&self.tokens) || self.begins_with_heredoc()
    }
}

/// The number of `.` and `&.` tokens among `tokens[lo..hi]`.
fn count_call_ops(tokens: &Vec<AbstractLineToken>, lo: usize, hi: usize) -> (r: usize)
    requires
        lo <= hi <= tokens@.len(),
    ensures
        r == count_calls(tokens@.subrange(lo as int, hi as int)),
{
    let mut c: usize = 0;
    let mut i: usize = lo;
    while i < hi
        invariant
            lo <= i <= hi,
            hi <= tokens@.len(),
            c == count_calls(tokens@.subrange(lo as int, i as int)),
            c <= i - lo,
        decreases hi - i,
    {
        assert(tokens@.subrange(lo as int, i + 1).drop_last() =~= tokens@.subrange(lo as int, i as int));
        if matches!(
            &tokens[i],
            AbstractLineToken::ConcreteLineToken(ConcreteLineToken::Dot)
                | AbstractLineToken::ConcreteLineToken(ConcreteLineToken::LonelyOperator)
        ) {
            c = c + 1;
        }
        i = i + 1;
    }
    c
}

impl BreakableCallChainEntry {
    pub fn new(formatting_context: &[FormattingContext], is_user_multilined: bool) -> (r: Self)
        ensures
            r.tokens@.len() == 0,
            r.in_string_embexpr == spec_in_embexpr(formatting_context@),
            r.is_user_multilined == is_user_multilined,
    {
        let in_string_embexpr = in_embexpr(formatting_context);
        BreakableCallChainEntry { tokens: Vec::new(), in_string_embexpr, is_user_multilined }
    }

    pub fn insert_at(&mut self, idx: usize, tokens: Vec<AbstractLineToken>)
        requires
            idx <= old(self).tokens@.len(),
        ensures
            final(self).tokens@ == old(self).tokens@.take(idx as int) + tokens@ + old(
                self,
            ).tokens@.skip(idx as int),
            final(self).is_user_multilined == old(self).is_user_multilined,
            final(self).in_string_embexpr == old(self).in_string_embexpr,
    {
        insert_at(idx, &mut self.tokens, tokens)
    }

    /// No-op: a call chain has its own multilining logic that does not depend
    /// on the source line numbers.
    pub fn push_line_number(&mut self, _number: LineNumber)
        ensures
            *final(self) == *old(self),
    {
    }

    /// Removes `BeginCallChainIndent` and `EndCallChainIndent`, which is only really
    /// necessary when rendering a call chain as single-line. This prevents unnecessarily
    /// increasing the indentation for a trailing block in e.g. `thing.each do; /* block */; end`
    pub fn remove_call_chain_magic_tokens(&mut self)
        ensures
            final(self).tokens@ == old(self).tokens@.filter(|t: AbstractLineToken| !is_chain_indent_magic(t)),
            final(self).is_user_multilined == old(self).is_user_multilined,
            final(self).in_string_embexpr == old(self).in_string_embexpr,
    {
        let ghost orig = self.tokens@;
        let mut kept: Vec<AbstractLineToken> = Vec::new();
        let mut rest: Vec<AbstractLineToken> = Vec::new();
        std::mem::swap(&mut rest, &mut self.tokens);
        let n = rest.len();
        let mut i: usize = 0;
        while i < n
            invariant
                n == orig.len(),
                i <= n,
                rest@ == orig.skip(i as int),
                kept@ == orig.take(i as int).filter(|t: AbstractLineToken| !is_chain_indent_magic(t)),
            decreases n - i,
        {
            let t = rest.remove(0);
            assert(t == orig[i as int]);
            assert(orig.skip(i as int).remove(0) =~= orig.skip(i + 1));
            assert(orig.take(i + 1).drop_last() =~= orig.take(i as int));
            reveal_with_fuel(Seq::<_>::filter, 1);
            if !matches!(
                &t,
                AbstractLineToken::ConcreteLineToken(ConcreteLineToken::BeginCallChainIndent)
                    | AbstractLineToken::ConcreteLineToken(ConcreteLineToken::EndCallChainIndent)
            ) {
                kept.push(t);
            }
            i = i + 1;
        }
        assert(orig.take(n as int) =~= orig);
        self.tokens = kept;
    }

    pub fn in_string_embexpr(&self) -> (r: bool)
        ensures
            r == self.in_string_embexpr,
    {
        self.in_string_embexpr
    }

    fn begins_with_heredoc(&self) -> (r: bool)
        ensures
            r == self.begins_with_heredoc_spec(),
    {
        self.tokens.len() > 0 && matches!(
            &self.tokens[0],
            AbstractLineToken::ConcreteLineToken(ConcreteLineToken::HeredocStart { .. })
        )
    }

    pub fn single_line_len(&self) -> (r: usize)
        ensures
            r == sat(tokens_len(self.tokens@)),
    {
        sum_single_line_len(&self.tokens)
    }
}

/// A call-chain indentation marker.
pub open spec fn is_chain_indent_magic(t: AbstractLineToken) -> bool {
    t matches AbstractLineToken::ConcreteLineToken(ConcreteLineToken::BeginCallChainIndent)
        || t matches AbstractLineToken::ConcreteLineToken(ConcreteLineToken::EndCallChainIndent)
}

#[derive(Debug)]
pub enum Breakable {
    DelimiterExpr(BreakableEntry),
    CallChain(BreakableCallChainEntry),
}

impl Breakable {
    pub open spec fn spec_tokens(&self) -> Seq<AbstractLineToken> {
        match self {
            Breakable::DelimiterExpr(be) => be.tokens@,
            Breakable::CallChain(bcce) => bcce.tokens@,
        }
    }

    /// Same variant, same everything but the tokens.
    pub open spec fn same_frame(&self, other: Breakable) -> bool {
        match (*self, other) {
            (Breakable::DelimiterExpr(a), Breakable::DelimiterExpr(b)) => a.multiline_tracker
                == b.multiline_tracker && a.delims@ == b.delims@ && a.in_string_embexpr
                == b.in_string_embexpr,
            (Breakable::CallChain(a), Breakable::CallChain(b)) => a.is_user_multilined
                == b.is_user_multilined && a.in_string_embexpr == b.in_string_embexpr,
            _ => false,
        }
    }

    /// The entry after `on_line(number)`.
    pub open spec fn after_line(&self, other: Breakable, number: LineNumber) -> bool {
        match (*self, other) {
            (Breakable::DelimiterExpr(a), Breakable::DelimiterExpr(b)) => b.multiline_tracker
                == a.multiline_tracker.after_line(number) && a.tokens == b.tokens && a.delims@
                == b.delims@ && a.in_string_embexpr == b.in_string_embexpr,
            (Breakable::CallChain(a), Breakable::CallChain(b)) => a == b,
            _ => false,
        }
    }

    /// The entry after `on_line(number)`, whatever became of its tokens.
    pub open spec fn after_line_frame(&self, other: Breakable, number: LineNumber) -> bool {
        match (*self, other) {
            (Breakable::DelimiterExpr(a), Breakable::DelimiterExpr(b)) => b.multiline_tracker
                == a.multiline_tracker.after_line(number) && a.delims@ == b.delims@ && a.in_string_embexpr
                == b.in_string_embexpr,
            (Breakable::CallChain(a), Breakable::CallChain(b)) => a.is_user_multilined == b.is_user_multilined
                && a.in_string_embexpr == b.in_string_embexpr,
            _ => false,
        }
    }

    pub fn push(&mut self, lt: AbstractLineToken)
        ensures
            final(self).spec_tokens() == old(self).spec_tokens().push(lt),
            old(self).same_frame(*final(self)),
    {
        match self {
            Breakable::DelimiterExpr(be) => be.tokens.push(lt),
            Breakable::CallChain(bcce) => bcce.tokens.push(lt),
        }
    }

    pub fn insert_at(&mut self, idx: usize, tokens: Vec<AbstractLineToken>)
        requires
            idx <= old(self).spec_tokens().len(),
        ensures
            final(self).spec_tokens() == old(self).spec_tokens().take(idx as int) + tokens@ + old(
                self,
            ).spec_tokens().skip(idx as int),
            old(self).same_frame(*final(self)),
    {
        match self {
            Breakable::DelimiterExpr(be) => be.insert_at(idx, tokens),
            Breakable::CallChain(bcce) => bcce.insert_at(idx, tokens),
        }
    }

    pub fn push_line_number(&mut self, number: LineNumber)
        ensures
            old(self).after_line(*final(self), number),
    {
        match self {
            Breakable::DelimiterExpr(be) => be.push_line_number(number),
            Breakable::CallChain(bcce) => bcce.push_line_number(number),
        }
    }

    pub fn len(&self) -> (r: usize)
        ensures
            r == self.spec_tokens().len(),
    {
        match self {
            Breakable::DelimiterExpr(be) => be.len(),
            Breakable::CallChain(bcce) => bcce.len(),
        }
    }

    pub fn last_token_is_a_newline(&self) -> (r: bool)
        requires
            self.spec_tokens().len() > 0 ==> self.spec_tokens().last().newline_safe(),
        ensures
            r == (self.spec_tokens().len() > 0 && self.spec_tokens().last().spec_is_newline()),
    {
        match self {
            Breakable::DelimiterExpr(be) => be.last_token_is_a_newline(),
            Breakable::CallChain(bcce) => bcce.last_token_is_a_newline(),
        }
    }

    pub fn index_of_prev_newline(&self) -> (r: Option<usize>)
        requires
            abstract_scan_safe(self.spec_tokens()),
        ensures
            r == (match abstract_last_break(self.spec_tokens()) {
                Some(i) => if self.spec_tokens()[i] is CollapsingNewLine || self.spec_tokens()[i] is SoftNewline {
                    Some((i + 1) as usize)
                } else {
                    Some(i as usize)
                },
                None => None::<usize>,
            }),
    {
        match self {
            Breakable::DelimiterExpr(be) => be.index_of_prev_newline(),
            Breakable::CallChain(bcce) => bcce.index_of_prev_newline(),
        }
    }

    pub fn into_breakable_entry(self) -> (r: Option<BreakableEntry>)
        ensures
            r == (match self {
                Breakable::DelimiterExpr(be) => Some(be),
                Breakable::CallChain(_) => None,
            }),
    {
        match self {
            Breakable::DelimiterExpr(be) => Some(be),
            Breakable::CallChain(_) => None,
        }
    }

    pub fn into_breakable_call_chain(self) -> (r: Option<BreakableCallChainEntry>)
        ensures
            r == (match self {
                Breakable::DelimiterExpr(_) => None,
                Breakable::CallChain(bcce) => Some(bcce),
            }),
    {
        match self {
            Breakable::DelimiterExpr(_) => None,
            Breakable::CallChain(bcce) => Some(bcce),
        }
    }
}

/// Tracks whether tokens span multiple source lines.
#[derive(Debug, PartialEq, Eq, Structural)]
pub struct MultilineTracker {
    pub first_line: Option<LineNumber>,
    pub is_multiline: bool,
}

impl MultilineTracker {
    /// The tracker once it has seen `line`.
    pub open spec fn after_line(self, line: LineNumber) -> MultilineTracker {
        match self.first_line {
            None => MultilineTracker { first_line: Some(line), is_multiline: self.is_multiline },
            Some(first) => if first != line {
                MultilineTracker { first_line: self.first_line, is_multiline: true }
            } else {
                self
            },
        }
    }

    pub fn new() -> (r: Self)
        ensures
            r.first_line is None,
            !r.is_multiline,
    {
        Self { first_line: None, is_multiline: false }
    }

    pub fn on_line(&mut self, line: LineNumber)
        ensures
            *final(self) == old(self).after_line(line),
    {
        match self.first_line {
            None => self.first_line = Some(line),
            Some(first) => {
                if first != line {
                    self.is_multiline = true;
                }
            },
        }
    }

    pub fn is_multiline(&self) -> (r: bool)
        ensures
            r == self.is_multiline,
    {
        self.is_multiline
    }
}

/// Seeing the same line twice is seeing it once.
pub proof fn law_tracker_same_line_twice(t: MultilineTracker, line: LineNumber)
    ensures
        t.after_line(line).after_line(line) == t.after_line(line),
{
}

/// A fresh tracker becomes multiline exactly when it sees two different lines.
pub proof fn law_tracker_multiline_iff_two_lines(a: LineNumber, b: LineNumber)
    ensures
        (MultilineTracker { first_line: None, is_multiline: false }).after_line(a).after_line(
            b,
        ).is_multiline == (a != b),
{
}

/// How deeply breakable entries nest inside a token.
pub open spec fn adepth(t: AbstractLineToken) -> nat
    decreases t,
{
    match t {
        AbstractLineToken::BreakableEntry(be) => 1 + adepth_seq(be.tokens@),
        AbstractLineToken::BreakableCallChainEntry(b) => 1 + adepth_seq(b.tokens@),
        _ => 0,
    }
}

pub open spec fn adepth_seq(s: Seq<AbstractLineToken>) -> nat
    decreases s,
{
    if s.len() == 0 {
        0
    } else {
        let a = adepth_seq(s.drop_last());
        let b = adepth(s.last());
        if a >= b {
            a
        } else {
            b
        }
    }
}

/// Every heredoc carried anywhere in a token can be written out.
pub open spec fn adeep_ok(t: AbstractLineToken) -> bool
    decreases t,
{
    match t {
        AbstractLineToken::BreakableEntry(be) => adeep_ok_seq(be.tokens@),
        AbstractLineToken::BreakableCallChainEntry(b) => adeep_ok_seq(b.tokens@),
        _ => abstract_heredocs_ok(t),
    }
}

pub open spec fn adeep_ok_seq(s: Seq<AbstractLineToken>) -> bool
    decreases s,
{
    if s.len() == 0 {
        true
    } else {
        adeep_ok_seq(s.drop_last()) && adeep_ok(s.last())
    }
}

pub open spec fn cdepth(t: ConcreteLineTokenAndTargets) -> nat {
    adepth(abstract_of(t))
}

pub open spec fn cdeep_ok(t: ConcreteLineTokenAndTargets) -> bool {
    adeep_ok(abstract_of(t))
}

/// Every token of `w` nests at most `d` deep, and its heredocs can be written.
pub open spec fn tokens_bounded(w: Seq<ConcreteLineTokenAndTargets>, d: nat) -> bool {
    forall|k: int| 0 <= k < w.len() ==> cdepth(#[trigger] w[k]) <= d && cdeep_ok(w[k])
}

proof fn lemma_seq_bounds(s: Seq<AbstractLineToken>, j: int)
    requires
        0 <= j < s.len(),
    ensures
        adepth(s[j]) <= adepth_seq(s),
        adeep_ok_seq(s) ==> adeep_ok(s[j]),
    decreases s.len(),
{
    if j < s.len() - 1 {
        lemma_seq_bounds(s.drop_last(), j);
        assert(s.drop_last()[j] == s[j]);
    }
}

pub proof fn lemma_seq_all_ok_pub(s: Seq<AbstractLineToken>)
    requires
        adeep_ok_seq(s),
    ensures
        all_heredocs_ok(s),
{
    assert forall|i: int| 0 <= i < s.len() implies abstract_heredocs_ok(#[trigger] s[i]) by {
        lemma_seq_bounds(s, i);
        match s[i] {
            AbstractLineToken::BreakableEntry(_) => {},
            AbstractLineToken::BreakableCallChainEntry(_) => {},
            _ => {},
        }
    }
}

proof fn lemma_heredocs_written_concrete(hs: Seq<crate::heredoc_string::HeredocString>, w: Seq<ConcreteLineTokenAndTargets>)
    requires
        crate::line_tokens::heredocs_written(hs, w),
    ensures
        forall|k: int| 0 <= k < w.len() ==> #[trigger] w[k] is ConcreteLineToken,
    decreases hs.len(),
{
    if hs.len() > 0 {
        let c = crate::line_tokens::heredoc_token_count(hs.last());
        lemma_heredocs_written_concrete(hs.drop_last(), w.take(w.len() - c));
        assert forall|k: int| 0 <= k < w.len() implies #[trigger] w[k] is ConcreteLineToken by {
            if k < w.len() - c {
                assert(w.take(w.len() - c)[k] == w[k]);
            } else {
                assert(w.skip(w.len() - c)[k - (w.len() - c)] == w[k]);
            }
        }
    }
}

proof fn lemma_opt_heredocs_concrete(h: Option<Vec<crate::heredoc_string::HeredocString>>, w: Seq<ConcreteLineTokenAndTargets>)
    requires
        crate::line_tokens::opt_heredocs_written(h, w),
    ensures
        forall|k: int| 0 <= k < w.len() ==> #[trigger] w[k] is ConcreteLineToken,
{
    if let Some(v) = h {
        lemma_heredocs_written_concrete(v@, w);
    }
}

/// A token written out from `t` is a plain token or `t` itself.
proof fn lemma_token_out_bounded(t: AbstractLineToken, w: Seq<ConcreteLineTokenAndTargets>, multi: bool)
    requires
        multi ==> multi_line_out(t, w),
        !multi ==> single_line_out(t, w),
    ensures
        forall|k: int| 0 <= k < w.len() ==> cdepth(#[trigger] w[k]) <= adepth(t) && (adeep_ok(t)
            ==> cdeep_ok(w[k])),
{
    match t {
        AbstractLineToken::CollapsingNewLine(h) => {
            if w.len() > 0 {
                lemma_opt_heredocs_concrete(h, w.skip(1));
                assert forall|k: int| 0 <= k < w.len() implies #[trigger] w[k] is ConcreteLineToken by {
                    if k > 0 {
                        assert(w.skip(1)[k - 1] == w[k]);
                    }
                }
            }
        },
        AbstractLineToken::SoftNewline(h) => {
            lemma_opt_heredocs_concrete(h, w.skip(1));
            assert forall|k: int| 0 <= k < w.len() implies #[trigger] w[k] is ConcreteLineToken by {
                if k > 0 {
                    assert(w.skip(1)[k - 1] == w[k]);
                }
            }
        },
        _ => {},
    }
    assert forall|k: int| 0 <= k < w.len() implies cdepth(#[trigger] w[k]) <= adepth(t) && (adeep_ok(t)
        ==> cdeep_ok(w[k])) by {
        if w[k] is ConcreteLineToken {
            assert(adepth(abstract_of(w[k])) == 0);
        }
    }
}

/// Every token written out from `ts` nests no deeper than `ts`, and keeps
/// its heredocs writable.
pub proof fn lemma_out_bounded(ts: Seq<AbstractLineToken>, w: Seq<ConcreteLineTokenAndTargets>, multi: bool)
    requires
        multi ==> all_multi_line_out(ts, w),
        !multi ==> all_single_line_out(ts, w),
        adeep_ok_seq(ts),
    ensures
        tokens_bounded(w, adepth_seq(ts)),
    decreases ts.len(),
{
    if ts.len() > 0 {
        let c = if multi {
            multi_line_count(ts.last())
        } else {
            single_line_count(ts.last())
        };
        let front = w.take(w.len() - c);
        let back = w.skip(w.len() - c);
        lemma_out_bounded(ts.drop_last(), front, multi);
        lemma_token_out_bounded(ts.last(), back, multi);
        assert forall|k: int| 0 <= k < w.len() implies cdepth(#[trigger] w[k]) <= adepth_seq(ts)
            && cdeep_ok(w[k]) by {
            if k < w.len() - c {
                assert(front[k] == w[k]);
            } else {
                assert(back[k - (w.len() - c)] == w[k]);
            }
        }
    }
}

proof fn lemma_seq_depth_le(s: Seq<AbstractLineToken>, bound: nat)
    requires
        forall|i: int| 0 <= i < s.len() ==> adepth(#[trigger] s[i]) <= bound,
    ensures
        adepth_seq(s) <= bound,
    decreases s.len(),
{
    if s.len() > 0 {
        assert forall|i: int| 0 <= i < s.drop_last().len() implies adepth(
            #[trigger] s.drop_last()[i],
        ) <= bound by {
            assert(s.drop_last()[i] == s[i]);
        }
        lemma_seq_depth_le(s.drop_last(), bound);
        assert(adepth(s[s.len() - 1]) <= bound);
    }
}

pub proof fn lemma_seq_ok_all(s: Seq<AbstractLineToken>)
    requires
        forall|i: int| 0 <= i < s.len() ==> adeep_ok(#[trigger] s[i]),
    ensures
        adeep_ok_seq(s),
    decreases s.len(),
{
    if s.len() > 0 {
        assert forall|i: int| 0 <= i < s.drop_last().len() implies adeep_ok(
            #[trigger] s.drop_last()[i],
        ) by {
            assert(s.drop_last()[i] == s[i]);
        }
        lemma_seq_ok_all(s.drop_last());
        assert(adeep_ok(s[s.len() - 1]));
    }
}

/// Dropping the call-chain indentation markers nests no deeper and keeps
/// every heredoc writable.
pub proof fn lemma_filter_bounds(before: Seq<AbstractLineToken>, after: Seq<AbstractLineToken>)
    requires
        after == before.filter(|t: AbstractLineToken| !is_chain_indent_magic(t)),
    ensures
        adepth_seq(after) <= adepth_seq(before),
        adeep_ok_seq(before) ==> adeep_ok_seq(after),
{
    let p = |t: AbstractLineToken| !is_chain_indent_magic(t);
    assert forall|j: int| 0 <= j < after.len() implies adepth(#[trigger] after[j]) <= adepth_seq(
        before,
    ) && (adeep_ok_seq(before) ==> adeep_ok(after[j])) by {
        assert(after.contains(after[j]));
        before.lemma_filter_contains_rev(p, after[j]);
        let i = choose|i: int| 0 <= i < before.len() && before[i] == after[j];
        lemma_seq_bounds(before, i);
    }
    lemma_seq_depth_le(after, adepth_seq(before));
    if adeep_ok_seq(before) {
        lemma_seq_ok_all(after);
    }
}

/// Every token of a sequence nests no deeper than the deepest.
pub proof fn lemma_tokens_bounded_by_max(w: Seq<ConcreteLineTokenAndTargets>)
    requires
        forall|k: int| 0 <= k < w.len() ==> cdeep_ok(#[trigger] w[k]),
    ensures
        tokens_bounded(w, crate::render_queue_writer::max_depth(w)),
    decreases w.len(),
{
    if w.len() > 0 {
        let f = w.drop_last();
        assert forall|k: int| 0 <= k < f.len() implies cdeep_ok(#[trigger] f[k]) by {
            assert(f[k] == w[k]);
        }
        lemma_tokens_bounded_by_max(f);
        assert forall|k: int| 0 <= k < w.len() implies cdepth(#[trigger] w[k])
            <= crate::render_queue_writer::max_depth(w) && cdeep_ok(w[k]) by {
            if k < w.len() - 1 {
                assert(f[k] == w[k]);
            }
        }
    }
}

} // verus!
