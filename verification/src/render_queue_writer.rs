use crate::heredoc_string::{HeredocKind, HeredocString};
use crate::intermediary::{no_chain_markers, BlanklineReason, Intermediary};
use crate::line_tokens::{
    clats_direct_part, clats_heredoc_close, clats_indent, cltats_spec_newline, sat, tok_eq, toks_eq,
    AbstractLineToken, ConcreteLineToken,
    ConcreteLineTokenAndTargets,
};
use crate::render_targets::{
    adeep_ok_seq, adepth_seq, lemma_out_bounded, AbstractTokenTarget, BreakableCallChainEntry,
    BreakableEntry, ConvertType, cdepth, cdeep_ok, delim_bytes, is_chain_indent_magic, tokens_bounded,
};
use crate::util::indent_vec;
use vstd::prelude::*;

verus! {

pub const MAX_LINE_LENGTH: usize = 120;

/// The render queue: tokens and breakable entries still to be laid out.
pub struct RenderQueueWriter {
    pub tokens: Vec<ConcreteLineTokenAndTargets>,
}

/// The tokens end in a blank line: their last two are two newlines, or an
/// empty comment and a newline.
pub open spec fn ends_in_blank_line(s: Seq<ConcreteLineToken>) -> bool {
    s.len() >= 2 && ((s[s.len() - 2] matches ConcreteLineToken::Comment { contents } && contents@.len() == 0
        && s.last() is HardNewLine) || (s[s.len() - 2] is HardNewLine && s.last() is HardNewLine))
}

/// The final tokens once trailing blank lines are dropped: while the tokens
/// end in a blank line, the last one goes.
pub open spec fn trim_final(s: Seq<ConcreteLineToken>) -> Seq<ConcreteLineToken>
    decreases s.len(),
{
    if ends_in_blank_line(s) {
        trim_final(s.drop_last())
    } else {
        s
    }
}

/// Trimmed tokens are a start of the tokens that ends in no blank line, and
/// trimming them again changes nothing.
pub proof fn law_trimmed_tokens_end_in_no_blank_line(s: Seq<ConcreteLineToken>)
    ensures
        !ends_in_blank_line(trim_final(s)),
        trim_final(s).len() <= s.len(),
        trim_final(s) == s.take(trim_final(s).len() as int),
        trim_final(trim_final(s)) == trim_final(s),
    decreases s.len(),
{
    if ends_in_blank_line(s) {
        law_trimmed_tokens_end_in_no_blank_line(s.drop_last());
        assert(s.drop_last().take(trim_final(s).len() as int) =~= s.take(trim_final(s).len() as int));
    } else {
        assert(s.take(s.len() as int) =~= s);
    }
}

/// The bytes of a sequence of tokens.
pub open spec fn ruby_of(s: Seq<ConcreteLineToken>) -> Seq<u8>
    decreases s.len(),
{
    if s.len() == 0 {
        Seq::empty()
    } else {
        ruby_of(s.drop_last()) + s.last().ruby()
    }
}

/// A token after which a line that follows an `end` gets a blank line.
pub open spec fn needs_trailing_blankline(t: ConcreteLineToken) -> bool {
    t.spec_is_conditional_spaced() && !t.spec_is_block_closing()
}

/// The tokens end in `end`, a newline, an indent and a token that wants a
/// blank line before it.
pub open spec fn after_end_wants_blankline(t: Seq<ConcreteLineToken>) -> bool {
    let l = t.len();
    &&& l >= 4
    &&& t[l - 4] is End
    &&& t[l - 3] is HardNewLine
    &&& t[l - 2] is Indent
    &&& needs_trailing_blankline(t[l - 1])
}

/// The tokens end in `end` of a call chain, a newline, an indent and three
/// more tokens, the first of which wants a blank line before it and is no
/// `def`, and the other two are not a space and `def`.
pub open spec fn after_chain_end_wants_blankline(t: Seq<ConcreteLineToken>) -> bool {
    let l = t.len();
    &&& l >= 7
    &&& t[l - 7] is End
    &&& t[l - 6] is AfterCallChain
    &&& t[l - 5] is HardNewLine
    &&& t[l - 4] is Indent
    &&& !(t[l - 3] is DefKeyword)
    &&& needs_trailing_blankline(t[l - 3])
    &&& !(t[l - 2] is Space && t[l - 1] is DefKeyword)
}

/// A heredoc closes, and the next line carries two indents before a call.
pub open spec fn heredoc_indented_twice(t: Seq<ConcreteLineToken>) -> bool {
    let l = t.len();
    &&& l >= 5
    &&& t[l - 5] is HeredocClose
    &&& t[l - 4] is HardNewLine
    &&& t[l - 3] is Indent
    &&& t[l - 2] is Indent
    &&& (t[l - 1] is Delim || t[l - 1] is Dot || t[l - 1] is DirectPart || t[l - 1] is MethodName)
}

/// The tokens and the index of the last hard newline after the fix-ups that
/// follow each token: a blank line after `end` (before the newline that
/// ends it), a blank line after the `end` of a call chain (before its last
/// three tokens), and one indent less after a heredoc that closes right
/// before a call.
pub open spec fn fix_up_model(t: Seq<ConcreteLineToken>, idx: int) -> (Seq<ConcreteLineToken>, int) {
    let (t1, i1) = if after_end_wants_blankline(t) {
        crate::intermediary::with_blankline(t, idx)
    } else {
        (t, idx)
    };
    let (t2, i2) = if after_chain_end_wants_blankline(t1) {
        let at = t1.len() - 4;
        (t1.insert(at, ConcreteLineToken::HardNewLine), if at <= i1 {
            i1 + 1
        } else {
            i1
        })
    } else {
        (t1, i1)
    };
    if heredoc_indented_twice(t2) {
        (t2.remove(t2.len() - 2), i2)
    } else {
        (t2, i2)
    }
}

/// The fix-ups keep the last token last.
proof fn lemma_fix_up_keeps_last(t: Seq<ConcreteLineToken>, idx: int, prev_some: bool)
    requires
        idx >= 0,
        t.len() > 0,
        crate::intermediary::wf_parts(t, idx, prev_some),
    ensures
        fix_up_model(t, idx).0.len() > 0,
        fix_up_model(t, idx).0.last() == t.last(),
{
    let (t1, i1) = if after_end_wants_blankline(t) {
        crate::intermediary::with_blankline(t, idx)
    } else {
        (t, idx)
    };
    if after_end_wants_blankline(t) {
        assert(t[t.len() - 3] is HardNewLine);
        assert(prev_some);
        assert(idx < t.len());
        if !crate::intermediary::blank_before(t, idx) {
            assert(t1[t1.len() - 1] == t[t.len() - 1]);
        }
    }
    assert(t1.len() > 0 && t1.last() == t.last());
    let (t2, i2) = if after_chain_end_wants_blankline(t1) {
        let at = t1.len() - 4;
        (t1.insert(at, ConcreteLineToken::HardNewLine), if at <= i1 {
            i1 + 1
        } else {
            i1
        })
    } else {
        (t1, i1)
    };
    if after_chain_end_wants_blankline(t1) {
        assert(t2[t2.len() - 1] == t1[t1.len() - 1]);
    }
    assert(t2.len() > 0 && t2.last() == t.last());
    if heredoc_indented_twice(t2) {
        let t3 = t2.remove(t2.len() - 2);
        assert(t3[t3.len() - 1] == t2[t2.len() - 1]);
    }
}

/// A token that the layout writes as it stands and that stays the last one
/// written: no newline, comment, indent, direct part or heredoc close (which
/// may be rewritten or moved) and no call-chain marker (which is not written).
pub open spec fn kept_last(t: ConcreteLineToken) -> bool {
    !(t is HardNewLine || t is Comment || t is Indent || t is DirectPart || t is HeredocClose
        || t is BeginCallChainIndent || t is EndCallChainIndent)
}

/// The last element of a queue, where it is a token that stays last.
pub open spec fn last_kept(q: Seq<ConcreteLineTokenAndTargets>) -> Option<ConcreteLineToken> {
    if q.len() > 0 {
        match q.last() {
            ConcreteLineTokenAndTargets::ConcreteLineToken(t) => if kept_last(t) {
                Some(t)
            } else {
                None
            },
            _ => None,
        }
    } else {
        None
    }
}

/// How a breakable entry is laid out after the tokens `t`: across lines when
/// it is multi-line or would run over the line length, unless it is inside a
/// string's interpolation with neither heredoc content nor hard newlines.
pub open spec fn entry_layout(t: Seq<ConcreteLineToken>, be: BreakableEntry) -> ConvertType {
    let force_single_line = be.in_string_embexpr && !be.spec_any_heredoc()
        && !crate::render_targets::has_hard_newline(be.tokens@);
    if !force_single_line && (be.spec_is_multiline() || sat(
        be.spec_single_line_string_length(crate::intermediary::line_length(t)),
    ) > MAX_LINE_LENGTH) {
        ConvertType::MultiLine
    } else {
        ConvertType::SingleLine
    }
}

/// The last of a sequence of abstract tokens, where it is a concrete token
/// that stays last.
pub open spec fn abstract_last_kept(s: Seq<AbstractLineToken>) -> Option<ConcreteLineToken> {
    if s.len() > 0 {
        match s.last() {
            AbstractLineToken::ConcreteLineToken(t) => if kept_last(t) {
                Some(t)
            } else {
                None
            },
            _ => None,
        }
    } else {
        None
    }
}

/// What is known of the tokens `toks` that the queue `q` is laid out as:
/// they hold no call-chain marker, an empty queue gives none, a queue that
/// ends in a token written as it stands gives tokens ending in it, and they
/// are the tokens of `layout_of(q)`, up to which vectors hold their bytes.
pub open spec fn laid_out(q: Seq<ConcreteLineTokenAndTargets>, toks: Seq<ConcreteLineToken>) -> bool {
    &&& no_chain_markers(toks)
    &&& q.len() == 0 ==> toks.len() == 0
    &&& (last_kept(q) matches Some(t) ==> toks.len() > 0 && toks.last() == t)
    &&& toks_eq(toks, layout_of(q))
}

/// `n` capped at the largest `u32`.
pub open spec fn sat32(n: int) -> u32 {
    if n > u32::MAX {
        u32::MAX
    } else {
        n as u32
    }
}

/// The state of a layout: the intermediary's tokens, last hard newline and
/// line metadata, and the depth of open call chains.
pub type LayoutState = (crate::intermediary::IntermediaryView, u32);

/// Two layout states that are the same but for which vectors hold their
/// tokens' bytes.
pub open spec fn state_eq(a: LayoutState, b: LayoutState) -> bool {
    crate::intermediary::view_eq(a.0, b.0) && a.1 == b.1
}

/// Two queue elements that are the same but for which vectors hold their
/// concrete tokens' bytes.
pub open spec fn clat_eq(a: ConcreteLineTokenAndTargets, b: ConcreteLineTokenAndTargets) -> bool {
    match (a, b) {
        (ConcreteLineTokenAndTargets::ConcreteLineToken(x), ConcreteLineTokenAndTargets::ConcreteLineToken(y)) => tok_eq(
            x,
            y,
        ),
        _ => a == b,
    }
}

/// Two queues that are the same but for which vectors hold their concrete
/// tokens' bytes.
pub open spec fn queue_eq(a: Seq<ConcreteLineTokenAndTargets>, b: Seq<ConcreteLineTokenAndTargets>) -> bool {
    a.len() == b.len() && forall|i: int| 0 <= i < a.len() ==> #[trigger] clat_eq(a[i], b[i])
}

/// The fix-ups after a token, on the intermediary's state.
pub open spec fn fix_up_view(v: crate::intermediary::IntermediaryView) -> crate::intermediary::IntermediaryView {
    let (t, i) = fix_up_model(v.0, v.1);
    (t, i, v.2, v.3)
}

/// A token pushed as the layout writes it: a call-chain marker opens or
/// closes a level of extra indentation, every other token is pushed; the
/// fix-ups follow.
pub open spec fn token_step(s: LayoutState, t: ConcreteLineToken) -> LayoutState {
    let (v, ai) = s;
    match t {
        ConcreteLineToken::BeginCallChainIndent => (fix_up_view(v), sat32(ai + 1)),
        ConcreteLineToken::EndCallChainIndent => (fix_up_view(v), if ai == 0 {
            0u32
        } else {
            (ai - 1) as u32
        }),
        _ => (fix_up_view(crate::intermediary::push_model(v, t)), ai),
    }
}

/// `t` is a comment holding `b`.
pub open spec fn is_comment_with(t: ConcreteLineToken, b: Seq<u8>) -> bool {
    t matches ConcreteLineToken::Comment { contents } && contents@ == b
}

/// `t` is a direct part holding `b`.
pub open spec fn is_part_with(t: ConcreteLineToken, b: Seq<u8>) -> bool {
    t matches ConcreteLineToken::DirectPart { part } && part@ == b
}

/// `t` is a heredoc close holding `b`.
pub open spec fn is_close_with(t: ConcreteLineToken, b: Seq<u8>) -> bool {
    t matches ConcreteLineToken::HeredocClose { symbol } && symbol@ == b
}

/// A comment holding `b`.
pub open spec fn comment_of(b: Seq<u8>) -> ConcreteLineToken {
    choose|t: ConcreteLineToken| #[trigger] is_comment_with(t, b)
}

/// A direct part holding `b`.
pub open spec fn part_of(b: Seq<u8>) -> ConcreteLineToken {
    choose|t: ConcreteLineToken| #[trigger] is_part_with(t, b)
}

/// A heredoc close holding `b`.
pub open spec fn close_of(b: Seq<u8>) -> ConcreteLineToken {
    choose|t: ConcreteLineToken| #[trigger] is_close_with(t, b)
}

/// Where a queue's layout stands: the layout state, and the kind of the
/// heredoc whose body is being written, if any.
pub type LayoutPos = (LayoutState, Option<HeredocKind>);

/// How the layout writes a concrete token: inside a call chain (with
/// `extra` spaces of extra indentation) an indent gains them unless a
/// heredoc closes right after it, and a comment's text, the lines of a
/// squiggly heredoc's body and the closing symbol of a heredoc that is not
/// bare are indented by them.
pub open spec fn token_as_written(p: LayoutPos, t: ConcreteLineToken, next_closes: bool) -> ConcreteLineToken {
    let (s, k) = p;
    let ai = s.1;
    let extra = sat(ai as nat * 2);
    match t {
        ConcreteLineToken::Indent { depth } => if next_closes {
            t
        } else {
            ConcreteLineToken::Indent { depth: sat32(depth + sat32(ai + ai)) }
        },
        ConcreteLineToken::Comment { contents } => if contents@.len() > 0 && extra > 0 {
            comment_of(crate::util::spaces(extra) + contents@)
        } else {
            t
        },
        ConcreteLineToken::DirectPart { part } => if k == Some(HeredocKind::Squiggly) && extra > 0 {
            part_of(indent_lines(part@, Seq::empty(), crate::util::spaces(extra)))
        } else {
            t
        },
        ConcreteLineToken::HeredocClose { symbol } => if (k matches Some(kk) && kk != HeredocKind::Bare) && extra > 0 {
            close_of(crate::util::spaces(extra) + symbol@)
        } else {
            t
        },
        _ => t,
    }
}

/// A concrete token of the queue laid out, and the heredoc kind as heredocs
/// start and close.
pub open spec fn token_model(p: LayoutPos, t: ConcreteLineToken, next_closes: bool) -> LayoutPos {
    (token_step(p.0, token_as_written(p, t, next_closes)), match t {
        ConcreteLineToken::HeredocStart { kind, .. } => Some(kind),
        ConcreteLineToken::HeredocClose { .. } => None,
        _ => p.1,
    })
}

/// What a pending heredoc carried by a newline is written as: its body and a
/// newline when the body is not empty, its indent unless it is bare, its
/// closing symbol, a newline, and an indent two spaces shallower.
pub open spec fn heredoc_model(h: HeredocString) -> Seq<ConcreteLineTokenAndTargets> {
    let body = crate::heredoc_string::render_segments(h.segments@, h.kind == HeredocKind::Squiggly, h.indent as nat);
    (if body.len() > 0 {
        seq![ConcreteLineTokenAndTargets::ConcreteLineToken(part_of(body)), cltats_spec_newline()]
    } else {
        Seq::empty()
    }) + (if h.kind == HeredocKind::Bare {
        Seq::empty()
    } else {
        seq![ConcreteLineTokenAndTargets::ConcreteLineToken(ConcreteLineToken::Indent { depth: h.indent })]
    }) + seq![
        ConcreteLineTokenAndTargets::ConcreteLineToken(close_of(crate::heredoc_string::remove_quotes(h.symbol@))),
        cltats_spec_newline(),
        ConcreteLineTokenAndTargets::ConcreteLineToken(
            ConcreteLineToken::Indent {
                depth: if h.indent != 0 {
                    (h.indent - 2) as u32
                } else {
                    0u32
                },
            },
        ),
    ]
}

/// What pending heredocs carried by a newline are written as, one after another.
pub open spec fn heredocs_model(hs: Seq<HeredocString>) -> Seq<ConcreteLineTokenAndTargets>
    decreases hs.len(),
{
    if hs.len() == 0 {
        Seq::empty()
    } else {
        heredocs_model(hs.drop_last()) + heredoc_model(hs.last())
    }
}

/// What the heredocs a newline carries are written as.
pub open spec fn carried_model(h: Option<Vec<HeredocString>>) -> Seq<ConcreteLineTokenAndTargets> {
    match h {
        Some(v) => heredocs_model(v@),
        None => Seq::empty(),
    }
}

/// What an abstract token is written as: on one line a soft newline is a
/// space and a collapsing newline and a soft indent vanish (a collapsing
/// newline that carries heredocs stays a newline); across lines newlines
/// are hard newlines and a soft indent is an indent; a newline is followed
/// by the heredocs it carries.
pub open spec fn token_written(t: AbstractLineToken, ct: ConvertType) -> Seq<ConcreteLineTokenAndTargets> {
    match t {
        AbstractLineToken::CollapsingNewLine(h) => if ct == ConvertType::SingleLine && h is None {
            Seq::empty()
        } else {
            seq![cltats_spec_newline()] + carried_model(h)
        },
        AbstractLineToken::SoftNewline(h) => if ct == ConvertType::SingleLine {
            seq![ConcreteLineTokenAndTargets::ConcreteLineToken(ConcreteLineToken::Space)] + carried_model(h)
        } else {
            seq![cltats_spec_newline()] + carried_model(h)
        },
        AbstractLineToken::SoftIndent { depth } => if ct == ConvertType::SingleLine {
            Seq::empty()
        } else {
            seq![ConcreteLineTokenAndTargets::ConcreteLineToken(ConcreteLineToken::Indent { depth })]
        },
        AbstractLineToken::ConcreteLineToken(c) => seq![ConcreteLineTokenAndTargets::ConcreteLineToken(c)],
        AbstractLineToken::BreakableEntry(be) => seq![ConcreteLineTokenAndTargets::BreakableEntry(be)],
        AbstractLineToken::BreakableCallChainEntry(b) => seq![
            ConcreteLineTokenAndTargets::BreakableCallChainEntry(b),
        ],
    }
}

/// What abstract tokens are written as, one after another.
pub open spec fn all_written(ts: Seq<AbstractLineToken>, ct: ConvertType) -> Seq<ConcreteLineTokenAndTargets>
    decreases ts.len(),
{
    if ts.len() == 0 {
        Seq::empty()
    } else {
        all_written(ts.drop_last(), ct) + token_written(ts.last(), ct)
    }
}

/// How a call chain is laid out after the tokens `t`: across lines when a
/// heredoc inside a string's interpolation forces it, or, outside such an
/// interpolation, when it was written across lines or would run over the
/// line length.
pub open spec fn chain_layout(t: Seq<ConcreteLineToken>, b: BreakableCallChainEntry) -> ConvertType {
    let must = b.spec_any_heredoc() && b.in_string_embexpr;
    if must || ((b.spec_is_multiline() || sat(b.spec_single_line_string_length(crate::intermediary::line_length(t)))
        > MAX_LINE_LENGTH) && !b.in_string_embexpr) {
        ConvertType::MultiLine
    } else {
        ConvertType::SingleLine
    }
}

/// A state once the garbage of a single-line entry is cleared.
pub open spec fn garbage_cleared(s: LayoutState) -> LayoutState {
    let (v, ai) = s;
    let (t, idx, cur, prev) = v;
    let c = crate::intermediary::cleared_garbage(t);
    let idx2 = if t.len() > 0 && idx == t.len() - 1 {
        c.len() - 1
    } else {
        idx
    };
    ((c, idx2, cur, prev), ai)
}

/// The state with the fix-ups after an element applied.
pub open spec fn fixed(s: LayoutState) -> LayoutState {
    (fix_up_view(s.0), s.1)
}

/// Whether the element after the first `n` of `q` is a heredoc close.
pub open spec fn closes_after(q: Seq<ConcreteLineTokenAndTargets>, n: int) -> bool {
    n < q.len() && q[n] matches ConcreteLineTokenAndTargets::ConcreteLineToken(ConcreteLineToken::HeredocClose { .. })
}

/// The first `n` elements of a queue laid out from `s`, element after
/// element, with nesting at most `d` deep.
pub open spec fn queue_fold(s: LayoutState, q: Seq<ConcreteLineTokenAndTargets>, n: nat, d: nat) -> LayoutPos
    decreases d, 1nat, n,
{
    if n == 0 || n > q.len() {
        (s, None)
    } else {
        elem_model(queue_fold(s, q, (n - 1) as nat, d), q[n - 1], closes_after(q, n as int), d)
    }
}

/// One element of a queue laid out, the fix-ups included.
pub open spec fn elem_model(p: LayoutPos, x: ConcreteLineTokenAndTargets, next_closes: bool, d: nat) -> LayoutPos
    decreases d, 0nat, 1nat,
{
    match x {
        ConcreteLineTokenAndTargets::ConcreteLineToken(t) => token_model(p, t, next_closes),
        ConcreteLineTokenAndTargets::BreakableEntry(be) => (fixed(entry_model(p.0, be, d)), p.1),
        ConcreteLineTokenAndTargets::BreakableCallChainEntry(b) => (fixed(chain_model(p.0, b, d)), p.1),
    }
}

/// What a breakable entry is written as for the layout `ct`: its
/// delimiters around its tokens.
pub open spec fn entry_written(be: BreakableEntry, ct: ConvertType) -> Seq<ConcreteLineTokenAndTargets> {
    seq![ConcreteLineTokenAndTargets::ConcreteLineToken(be.delims.open_token(ct))] + all_written(be.tokens@, ct)
        + seq![ConcreteLineTokenAndTargets::ConcreteLineToken(be.delims.close_token(ct))]
}

/// A breakable entry laid out from `s`: its delimiters and tokens written
/// as `entry_layout` chooses, laid out in turn, and on one line the garbage
/// before the closing delimiter cleared.
pub open spec fn entry_model(s: LayoutState, be: BreakableEntry, d: nat) -> LayoutState
    decreases d, 0nat, 0nat,
{
    if d == 0 {
        s
    } else {
        let ct = entry_layout(s.0.0, be);
        let w = entry_written(be, ct);
        let s2 = queue_fold(s, w, w.len(), (d - 1) as nat).0;
        if ct == ConvertType::SingleLine {
            garbage_cleared(s2)
        } else {
            s2
        }
    }
}

/// The tokens a call chain is written with for the layout `ct`: on one line
/// without the call-chain markers.
pub open spec fn chain_tokens(b: BreakableCallChainEntry, ct: ConvertType) -> Seq<AbstractLineToken> {
    if ct == ConvertType::SingleLine {
        b.tokens@.filter(|t: AbstractLineToken| !is_chain_indent_magic(t))
    } else {
        b.tokens@
    }
}

/// A call chain laid out from `s`: its tokens written as `chain_layout`
/// chooses, laid out in turn.
pub open spec fn chain_model(s: LayoutState, b: BreakableCallChainEntry, d: nat) -> LayoutState
    decreases d, 0nat, 0nat,
{
    if d == 0 {
        s
    } else {
        let ct = chain_layout(s.0.0, b);
        let w = all_written(chain_tokens(b, ct), ct);
        queue_fold(s, w, w.len(), (d - 1) as nat).0
    }
}

/// The state a queue is laid out to from `s`.
pub open spec fn queue_model(s: LayoutState, q: Seq<ConcreteLineTokenAndTargets>, d: nat) -> LayoutState {
    queue_fold(s, q, q.len(), d).0
}

/// The state of an empty intermediary.
pub open spec fn empty_layout_state() -> LayoutState {
    ((Seq::empty(), 0, crate::line_metadata::fresh_line_metadata(), None), 0u32)
}

/// The final tokens of a queue laid out from an empty intermediary.
pub open spec fn layout_of(q: Seq<ConcreteLineTokenAndTargets>) -> Seq<ConcreteLineToken> {
    queue_model(empty_layout_state(), q, max_depth(q)).0.0
}

/// The bytes written for tokens, trimmed of trailing blank lines, see only
/// the tokens' bytes.
pub proof fn lemma_written_bytes_eq(a: Seq<ConcreteLineToken>, b: Seq<ConcreteLineToken>)
    requires
        toks_eq(a, b),
    ensures
        ruby_of(trim_final(a)) == ruby_of(trim_final(b)),
        ruby_of(a) == ruby_of(b),
    decreases a.len(),
{
    if a.len() > 0 {
        crate::intermediary::lemma_toks_drop_last(a, b);
        crate::line_tokens::lemma_tok_eq(a.last(), b.last());
        lemma_written_bytes_eq(a.drop_last(), b.drop_last());
        if a.len() >= 2 {
            crate::line_tokens::lemma_tok_eq(a[a.len() - 2], b[b.len() - 2]);
        }
        assert(ends_in_blank_line(a) == ends_in_blank_line(b));
    }
}

/// A queue is laid out as one list of tokens, up to which vectors hold
/// their bytes: what `write` prints is the bytes of what `into_tokens`
/// gives, trimmed of trailing blank lines.
pub proof fn law_one_layout_per_queue(q: Seq<ConcreteLineTokenAndTargets>, a: Seq<ConcreteLineToken>, b: Seq<ConcreteLineToken>)
    requires
        laid_out(q, a),
        laid_out(q, b),
    ensures
        toks_eq(a, b),
        ruby_of(trim_final(a)) == ruby_of(trim_final(b)),
{
    let l = layout_of(q);
    assert forall|i: int| 0 <= i < a.len() implies #[trigger] tok_eq(a[i], b[i]) by {
        assert(tok_eq(a[i], l[i]));
        assert(tok_eq(b[i], l[i]));
        crate::line_tokens::lemma_tok_eq(b[i], l[i]);
        crate::line_tokens::lemma_tok_eq2(a[i], l[i], b[i]);
    }
    lemma_written_bytes_eq(a, b);
}

/// The last seven tokens answer the fix-ups' questions alike.
proof fn lemma_tail_eq(t: Seq<ConcreteLineToken>, u: Seq<ConcreteLineToken>)
    requires
        toks_eq(t, u),
    ensures
        after_end_wants_blankline(t) == after_end_wants_blankline(u),
        after_chain_end_wants_blankline(t) == after_chain_end_wants_blankline(u),
        heredoc_indented_twice(t) == heredoc_indented_twice(u),
{
    let l = t.len() as int;
    assert forall|j: int| 1 <= j <= 7 && l - j >= 0 implies (#[trigger] tok_eq(t[l - j], u[l - j])) by {
        assert(tok_eq(t[l - j], u[l - j]));
    }
    if l >= 1 {
        crate::line_tokens::lemma_tok_eq(t[l - 1], u[l - 1]);
    }
    if l >= 2 {
        crate::line_tokens::lemma_tok_eq(t[l - 2], u[l - 2]);
    }
    if l >= 3 {
        crate::line_tokens::lemma_tok_eq(t[l - 3], u[l - 3]);
    }
    if l >= 4 {
        crate::line_tokens::lemma_tok_eq(t[l - 4], u[l - 4]);
    }
    if l >= 5 {
        crate::line_tokens::lemma_tok_eq(t[l - 5], u[l - 5]);
    }
    if l >= 6 {
        crate::line_tokens::lemma_tok_eq(t[l - 6], u[l - 6]);
    }
    if l >= 7 {
        crate::line_tokens::lemma_tok_eq(t[l - 7], u[l - 7]);
    }
}

/// The fix-ups see only the tokens' bytes.
proof fn lemma_fix_up_eq(a: crate::intermediary::IntermediaryView, b: crate::intermediary::IntermediaryView)
    requires
        crate::intermediary::view_eq(a, b),
        0 <= a.1 <= a.0.len(),
    ensures
        crate::intermediary::view_eq(fix_up_view(a), fix_up_view(b)),
{
    let (t, idx) = (a.0, a.1);
    let u = b.0;
    lemma_tail_eq(t, u);
    crate::intermediary::lemma_shape_eq(t, u, idx);
    let (t1, i1) = if after_end_wants_blankline(t) {
        crate::intermediary::with_blankline(t, idx)
    } else {
        (t, idx)
    };
    let (u1, j1) = if after_end_wants_blankline(u) {
        crate::intermediary::with_blankline(u, idx)
    } else {
        (u, idx)
    };
    assert(toks_eq(t1, u1) && i1 == j1);
    lemma_tail_eq(t1, u1);
    let (t2, i2) = if after_chain_end_wants_blankline(t1) {
        let at = t1.len() - 4;
        (t1.insert(at, ConcreteLineToken::HardNewLine), if at <= i1 {
            i1 + 1
        } else {
            i1
        })
    } else {
        (t1, i1)
    };
    let (u2, j2) = if after_chain_end_wants_blankline(u1) {
        let at = u1.len() - 4;
        (u1.insert(at, ConcreteLineToken::HardNewLine), if at <= j1 {
            j1 + 1
        } else {
            j1
        })
    } else {
        (u1, j1)
    };
    if after_chain_end_wants_blankline(t1) {
        crate::intermediary::lemma_toks_insert(t1, u1, t1.len() - 4, ConcreteLineToken::HardNewLine);
    }
    assert(toks_eq(t2, u2) && i2 == j2);
    lemma_tail_eq(t2, u2);
    if heredoc_indented_twice(t2) {
        crate::intermediary::lemma_toks_remove(t2, u2, t2.len() - 2);
    }
}

/// Clearing the garbage sees only the tokens' bytes.
proof fn lemma_garbage_cleared_eq(a: LayoutState, b: LayoutState)
    requires
        state_eq(a, b),
    ensures
        state_eq(garbage_cleared(a), garbage_cleared(b)),
{
    crate::intermediary::lemma_cleared_garbage_eq(a.0.0, b.0.0);
}

/// A token written as the layout writes it depends only on the tokens'
/// bytes, the call-chain depth and the heredoc kind.
proof fn lemma_token_as_written_eq(p: LayoutPos, p2: LayoutPos, t: ConcreteLineToken, t2: ConcreteLineToken, nc: bool)
    requires
        p.0.1 == p2.0.1,
        p.1 == p2.1,
        tok_eq(t, t2),
    ensures
        tok_eq(token_as_written(p, t, nc), token_as_written(p2, t2, nc)),
{
    crate::line_tokens::lemma_tok_eq(t, t2);
}

/// A comment, part or close that holds `b` is the one these models name,
/// up to its vector.
proof fn lemma_named_tokens(t: ConcreteLineToken)
    ensures
        t matches ConcreteLineToken::Comment { contents } ==> tok_eq(t, comment_of(contents@)),
        t matches ConcreteLineToken::DirectPart { part } ==> tok_eq(t, part_of(part@)),
        t matches ConcreteLineToken::HeredocClose { symbol } ==> tok_eq(t, close_of(symbol@)),
{
    match t {
        ConcreteLineToken::Comment { contents } => {
            assert(is_comment_with(t, contents@));
            assert(is_comment_with(comment_of(contents@), contents@));
        },
        ConcreteLineToken::DirectPart { part } => {
            assert(is_part_with(t, part@));
            assert(is_part_with(part_of(part@), part@));
        },
        ConcreteLineToken::HeredocClose { symbol } => {
            assert(is_close_with(t, symbol@));
            assert(is_close_with(close_of(symbol@), symbol@));
        },
        _ => {},
    }
}

/// Heredocs written after a newline are `heredocs_model`, up to vectors.
proof fn lemma_heredocs_written(hs: Seq<HeredocString>, w: Seq<ConcreteLineTokenAndTargets>)
    requires
        crate::line_tokens::heredocs_written(hs, w),
    ensures
        queue_eq(heredocs_model(hs), w),
    decreases hs.len(),
{
    if hs.len() > 0 {
        let h = hs.last();
        let c = crate::line_tokens::heredoc_token_count(h) as int;
        let a = w.take(w.len() - c);
        let b = w.skip(w.len() - c);
        lemma_heredocs_written(hs.drop_last(), a);
        let m = heredoc_model(h);
        let body = crate::heredoc_string::render_segments(h.segments@, h.kind == HeredocKind::Squiggly, h.indent as nat);
        let sym = crate::heredoc_string::remove_quotes(h.symbol@);
        let bb: int = if body.len() > 0 {
            2
        } else {
            0
        };
        let kk: int = if h.kind == HeredocKind::Bare {
            0
        } else {
            1
        };
        assert(m.len() == b.len());
        assert forall|i: int| 0 <= i < m.len() implies #[trigger] clat_eq(m[i], b[i]) by {
            if body.len() > 0 && i == 0 {
                let t = b[0]->ConcreteLineToken_0;
                lemma_named_tokens(t);
                crate::line_tokens::lemma_tok_eq(t, part_of(body));
            } else if i == bb + kk {
                let t = b[i]->ConcreteLineToken_0;
                lemma_named_tokens(t);
                crate::line_tokens::lemma_tok_eq(t, close_of(sym));
            }
        }
        let mm = heredocs_model(hs);
        assert(mm == heredocs_model(hs.drop_last()) + m);
        assert forall|i: int| 0 <= i < mm.len() implies #[trigger] clat_eq(mm[i], w[i]) by {
            if i < a.len() {
                assert(clat_eq(heredocs_model(hs.drop_last())[i], a[i]));
            } else {
                assert(clat_eq(m[i - a.len()], b[i - a.len()]));
            }
        }
    }
}

/// Written across lines or on one line, abstract tokens become `all_written`,
/// up to vectors.
proof fn lemma_written(ts: Seq<AbstractLineToken>, w: Seq<ConcreteLineTokenAndTargets>, multi: bool)
    requires
        multi ==> crate::render_targets::all_multi_line_out(ts, w),
        !multi ==> crate::render_targets::all_single_line_out(ts, w),
    ensures
        queue_eq(all_written(ts, if multi { ConvertType::MultiLine } else { ConvertType::SingleLine }), w),
    decreases ts.len(),
{
    let ct = if multi {
        ConvertType::MultiLine
    } else {
        ConvertType::SingleLine
    };
    if ts.len() > 0 {
        let t = ts.last();
        let c = if multi {
            crate::line_tokens::multi_line_count(t)
        } else {
            crate::line_tokens::single_line_count(t)
        };
        let a = w.take(w.len() - c);
        let b = w.skip(w.len() - c);
        lemma_written(ts.drop_last(), a, multi);
        let m = token_written(t, ct);
        match t {
            AbstractLineToken::CollapsingNewLine(h) => {
                if multi || h is Some {
                    if h is Some {
                        lemma_heredocs_written(h->Some_0@, b.skip(1));
                    }
                    assert forall|i: int| 0 <= i < m.len() implies #[trigger] clat_eq(m[i], b[i]) by {
                        if i > 0 {
                            assert(clat_eq(m.skip(1)[i - 1], b.skip(1)[i - 1]));
                        }
                    }
                }
            },
            AbstractLineToken::SoftNewline(h) => {
                if h is Some {
                    lemma_heredocs_written(h->Some_0@, b.skip(1));
                }
                assert forall|i: int| 0 <= i < m.len() implies #[trigger] clat_eq(m[i], b[i]) by {
                    if i > 0 {
                        assert(clat_eq(m.skip(1)[i - 1], b.skip(1)[i - 1]));
                    }
                }
            },
            _ => {
                assert forall|i: int| 0 <= i < m.len() implies #[trigger] clat_eq(m[i], b[i]) by {}
            },
        }
        let mm = all_written(ts, ct);
        assert(mm == all_written(ts.drop_last(), ct) + m);
        assert forall|i: int| 0 <= i < mm.len() implies #[trigger] clat_eq(mm[i], w[i]) by {
            if i < a.len() {
                assert(clat_eq(all_written(ts.drop_last(), ct)[i], a[i]));
            } else {
                assert(clat_eq(m[i - a.len()], b[i - a.len()]));
            }
        }
    }
}

/// Every queue is the same as itself.
proof fn lemma_queue_eq_refl(q: Seq<ConcreteLineTokenAndTargets>)
    ensures
        queue_eq(q, q),
{
    assert forall|i: int| 0 <= i < q.len() implies #[trigger] clat_eq(q[i], q[i]) by {
        if q[i] is ConcreteLineToken {
            assert(tok_eq(q[i]->ConcreteLineToken_0, q[i]->ConcreteLineToken_0));
        }
    }
}

/// Sameness of states up to vectors is symmetric.
proof fn lemma_state_eq_sym(a: LayoutState, b: LayoutState)
    requires
        state_eq(a, b),
    ensures
        state_eq(b, a),
{
    assert forall|i: int| 0 <= i < b.0.0.len() implies #[trigger] tok_eq(b.0.0[i], a.0.0[i]) by {
        crate::line_tokens::lemma_tok_eq(a.0.0[i], b.0.0[i]);
    }
}

/// A token step sees only the tokens' bytes.
proof fn lemma_token_step_eq(a: LayoutState, b: LayoutState, x: ConcreteLineToken, y: ConcreteLineToken)
    requires
        state_eq(a, b),
        tok_eq(x, y),
        0 <= a.0.1 <= a.0.0.len(),
        !(x is BeginCallChainIndent || x is EndCallChainIndent) ==> 0 <= crate::intermediary::push_model(a.0, x).1
            <= crate::intermediary::push_model(a.0, x).0.len(),
    ensures
        state_eq(token_step(a, x), token_step(b, y)),
{
    crate::line_tokens::lemma_tok_eq(x, y);
    if x is BeginCallChainIndent || x is EndCallChainIndent {
        lemma_fix_up_eq(a.0, b.0);
    } else {
        crate::intermediary::lemma_push_model_eq(a.0, b.0, x, y);
        lemma_fix_up_eq(crate::intermediary::push_model(a.0, x), crate::intermediary::push_model(b.0, y));
    }
}

/// Every queue that is the same as `orig` up to vectors, laid out from a
/// state that is the same as `init`, has its first `n` elements laid out to
/// `cur`, with the heredoc kind `kind`.
pub open spec fn fold_matches(
    init: LayoutState,
    orig: Seq<ConcreteLineTokenAndTargets>,
    n: nat,
    d: nat,
    cur: LayoutState,
    kind: Option<HeredocKind>,
) -> bool {
    forall|s: LayoutState, q: Seq<ConcreteLineTokenAndTargets>|
        #![trigger queue_fold(s, q, n, d)]
        state_eq(s, init) && queue_eq(q, orig) ==> state_eq(cur, queue_fold(s, q, n, d).0) && queue_fold(
            s,
            q,
            n,
            d,
        ).1 == kind
}

/// Laying out the element `x` (or one the same up to vectors) from a
/// position the same as `pre` up to vectors leads to `post` and `kind`.
pub open spec fn step_ok(
    pre: LayoutState,
    k0: Option<HeredocKind>,
    x: ConcreteLineTokenAndTargets,
    nc: bool,
    d: nat,
    post: LayoutState,
    k1: Option<HeredocKind>,
) -> bool {
    forall|p: LayoutPos, y: ConcreteLineTokenAndTargets|
        #![trigger elem_model(p, y, nc, d)]
        state_eq(p.0, pre) && p.1 == k0 && clat_eq(y, x) ==> state_eq(post, elem_model(p, y, nc, d).0)
            && elem_model(p, y, nc, d).1 == k1
}

/// One more element laid out keeps the fold matching.
proof fn lemma_fold_step(
    init: LayoutState,
    orig: Seq<ConcreteLineTokenAndTargets>,
    n: nat,
    d: nat,
    pre: LayoutState,
    k0: Option<HeredocKind>,
    post: LayoutState,
    k1: Option<HeredocKind>,
)
    requires
        fold_matches(init, orig, n, d, pre, k0),
        n < orig.len(),
        step_ok(pre, k0, orig[n as int], closes_after(orig, (n + 1) as int), d, post, k1),
    ensures
        fold_matches(init, orig, n + 1, d, post, k1),
{
    assert forall|s: LayoutState, q: Seq<ConcreteLineTokenAndTargets>|
        #![trigger queue_fold(s, q, n + 1, d)]
        state_eq(s, init) && queue_eq(q, orig) implies state_eq(post, queue_fold(s, q, n + 1, d).0) && queue_fold(
        s,
        q,
        n + 1,
        d,
    ).1 == k1 by {
        let p = queue_fold(s, q, n, d);
        lemma_state_eq_sym(pre, p.0);
        assert(clat_eq(q[n as int], orig[n as int]));
        if n + 1 < q.len() {
            assert(clat_eq(q[(n + 1) as int], orig[(n + 1) as int]));
            if q[(n + 1) as int] is ConcreteLineToken {
                crate::line_tokens::lemma_tok_eq(q[(n + 1) as int]->ConcreteLineToken_0, orig[(n + 1) as int]->ConcreteLineToken_0);
            }
        }
        assert(closes_after(q, (n + 1) as int) == closes_after(orig, (n + 1) as int));
        assert(queue_fold(s, q, n + 1, d) == elem_model(p, q[n as int], closes_after(q, (n + 1) as int), d));
    }
}

/// A concrete token written as the layout writes it and pushed makes a step
/// that matches the model.
proof fn lemma_concrete_step_ok(
    pre: LayoutState,
    k0: Option<HeredocKind>,
    t_o: ConcreteLineToken,
    t_a: ConcreteLineToken,
    nc: bool,
    d: nat,
    k1: Option<HeredocKind>,
)
    requires
        0 <= pre.0.1 <= pre.0.0.len(),
        tok_eq(t_a, token_as_written((pre, k0), t_o, nc)),
        !(t_a is BeginCallChainIndent || t_a is EndCallChainIndent) ==> 0 <= crate::intermediary::push_model(
            pre.0,
            t_a,
        ).1 <= crate::intermediary::push_model(pre.0, t_a).0.len(),
        k1 == match t_o {
            ConcreteLineToken::HeredocStart { kind, .. } => Some(kind),
            ConcreteLineToken::HeredocClose { .. } => None,
            _ => k0,
        },
    ensures
        step_ok(pre, k0, ConcreteLineTokenAndTargets::ConcreteLineToken(t_o), nc, d, token_step(pre, t_a), k1),
{
    assert forall|p: LayoutPos, y: ConcreteLineTokenAndTargets|
        #![trigger elem_model(p, y, nc, d)]
        state_eq(p.0, pre) && p.1 == k0 && clat_eq(y, ConcreteLineTokenAndTargets::ConcreteLineToken(t_o)) implies state_eq(
        token_step(pre, t_a),
        elem_model(p, y, nc, d).0,
    ) && elem_model(p, y, nc, d).1 == k1 by {
        let t_y = y->ConcreteLineToken_0;
        lemma_token_as_written_eq(p, (pre, k0), t_y, t_o, nc);
        let tw = token_as_written(p, t_y, nc);
        crate::line_tokens::lemma_tok_eq(tw, token_as_written((pre, k0), t_o, nc));
        crate::line_tokens::lemma_tok_eq2(t_a, token_as_written((pre, k0), t_o, nc), tw);
        lemma_state_eq_sym(p.0, pre);
        lemma_token_step_eq(pre, p.0, t_a, tw);
        crate::line_tokens::lemma_tok_eq(t_y, t_o);
    }
}

/// A breakable entry laid out as the model lays it out makes a step that
/// matches the model.
proof fn lemma_entry_step_ok(pre: LayoutState, k0: Option<HeredocKind>, be: BreakableEntry, nc: bool, d: nat, mid: LayoutState)
    requires
        forall|s: LayoutState| #![trigger entry_model(s, be, d)] state_eq(s, pre) ==> state_eq(mid, entry_model(s, be, d)),
        0 <= mid.0.1 <= mid.0.0.len(),
    ensures
        step_ok(pre, k0, ConcreteLineTokenAndTargets::BreakableEntry(be), nc, d, fixed(mid), k0),
{
    assert forall|p: LayoutPos, y: ConcreteLineTokenAndTargets|
        #![trigger elem_model(p, y, nc, d)]
        state_eq(p.0, pre) && p.1 == k0 && clat_eq(y, ConcreteLineTokenAndTargets::BreakableEntry(be)) implies state_eq(
        fixed(mid),
        elem_model(p, y, nc, d).0,
    ) && elem_model(p, y, nc, d).1 == k0 by {
        let m = entry_model(p.0, be, d);
        assert(state_eq(mid, m));
        lemma_fix_up_eq(mid.0, m.0);
    }
}

/// A call chain laid out as the model lays it out makes a step that matches
/// the model.
proof fn lemma_chain_step_ok(
    pre: LayoutState,
    k0: Option<HeredocKind>,
    b: BreakableCallChainEntry,
    nc: bool,
    d: nat,
    mid: LayoutState,
)
    requires
        forall|s: LayoutState| #![trigger chain_model(s, b, d)] state_eq(s, pre) ==> state_eq(mid, chain_model(s, b, d)),
        0 <= mid.0.1 <= mid.0.0.len(),
    ensures
        step_ok(pre, k0, ConcreteLineTokenAndTargets::BreakableCallChainEntry(b), nc, d, fixed(mid), k0),
{
    assert forall|p: LayoutPos, y: ConcreteLineTokenAndTargets|
        #![trigger elem_model(p, y, nc, d)]
        state_eq(p.0, pre) && p.1 == k0 && clat_eq(y, ConcreteLineTokenAndTargets::BreakableCallChainEntry(b)) implies state_eq(
        fixed(mid),
        elem_model(p, y, nc, d).0,
    ) && elem_model(p, y, nc, d).1 == k0 by {
        let m = chain_model(p.0, b, d);
        assert(state_eq(mid, m));
        lemma_fix_up_eq(mid.0, m.0);
    }
}

/// A call chain outside a string's interpolation that would run over the
/// line length on one line, from where the current line stands, is laid out
/// across lines; inside an interpolation, a chain without heredocs stays on
/// one line.
pub proof fn law_long_call_chains_break_across_lines(t: Seq<ConcreteLineToken>, b: BreakableCallChainEntry, s: LayoutState, d: nat)
    ensures
        !b.in_string_embexpr && sat(b.spec_single_line_string_length(crate::intermediary::line_length(t)))
            > 120 ==> chain_layout(t, b) == ConvertType::MultiLine,
        !b.in_string_embexpr && b.spec_is_multiline() ==> chain_layout(t, b) == ConvertType::MultiLine,
        b.in_string_embexpr && !b.spec_any_heredoc() ==> chain_layout(t, b) == ConvertType::SingleLine,
        !b.in_string_embexpr && !b.spec_is_multiline() && sat(
            b.spec_single_line_string_length(crate::intermediary::line_length(t)),
        ) <= 120 ==> chain_layout(t, b) == ConvertType::SingleLine,
        d > 0 && !b.in_string_embexpr && sat(
            b.spec_single_line_string_length(crate::intermediary::line_length(s.0.0)),
        ) > 120 ==> chain_model(s, b, d) == queue_fold(
            s,
            all_written(b.tokens@, ConvertType::MultiLine),
            all_written(b.tokens@, ConvertType::MultiLine).len(),
            (d - 1) as nat,
        ).0,
{
}

/// A breakable entry outside a string's interpolation that would run over
/// the line length on one line is laid out across lines, and one that fits
/// and was written on one line stays on one line.
pub proof fn law_long_entries_break_across_lines(t: Seq<ConcreteLineToken>, be: BreakableEntry)
    ensures
        !be.in_string_embexpr && sat(be.spec_single_line_string_length(crate::intermediary::line_length(t)))
            > 120 ==> entry_layout(t, be) == ConvertType::MultiLine,
        !be.spec_is_multiline() && sat(be.spec_single_line_string_length(crate::intermediary::line_length(t)))
            <= 120 ==> entry_layout(t, be) == ConvertType::SingleLine,
{
}

/// The width of the extra call-chain indentation, in spaces.
fn extra_indent_width(additional_indent: u32) -> (r: usize)
    ensures
        r == sat(additional_indent as nat * 2),
{
    let a = additional_indent as usize;
    match a.checked_mul(2) {
        Some(w) => w,
        None => usize::MAX,
    }
}

/// `indent` followed by `rest`.
fn prefixed(indent: Vec<u8>, rest: &[u8]) -> (r: Vec<u8>)
    ensures
        r@ == indent@ + rest@,
{
    let mut out = indent;
    let ghost start = out@;
    let mut i: usize = 0;
    while i < rest.len()
        invariant
            i <= rest@.len(),
            out@ == start + rest@.take(i as int),
        decreases rest@.len() - i,
    {
        out.push(rest[i]);
        assert(rest@.take(i + 1) =~= rest@.take(i as int).push(rest@[i as int]));
        i = i + 1;
    }
    assert(rest@.take(i as int) =~= rest@);
    out
}

/// A line of a squiggly heredoc's part, behind `indent` unless it is empty.
pub open spec fn indent_line(line: Seq<u8>, indent: Seq<u8>) -> Seq<u8> {
    if line.len() > 0 {
        indent + line
    } else {
        line
    }
}

/// The lines of `s` (split at `\n`, `line` being the part of the current line
/// already read), each non-empty one behind `indent`, joined by `\n`.
pub open spec fn indent_lines(s: Seq<u8>, line: Seq<u8>, indent: Seq<u8>) -> Seq<u8>
    decreases s.len(),
{
    if s.len() == 0 {
        indent_line(line, indent)
    } else if s[0] == 10u8 {
        indent_line(line, indent) + seq![10u8] + indent_lines(s.skip(1), Seq::empty(), indent)
    } else {
        indent_lines(s.skip(1), line.push(s[0]), indent)
    }
}

/// `out` followed by the bytes of `s[from..to]`.
fn push_range(out: &mut Vec<u8>, s: &[u8], from: usize, to: usize)
    requires
        from <= to <= s@.len(),
    ensures
        final(out)@ == old(out)@ + s@.subrange(from as int, to as int),
{
    let ghost start = out@;
    let mut k: usize = from;
    while k < to
        invariant
            from <= k <= to <= s@.len(),
            out@ == start + s@.subrange(from as int, k as int),
        decreases to - k,
    {
        out.push(s[k]);
        assert(s@.subrange(from as int, k + 1) =~= s@.subrange(from as int, k as int).push(s@[k as int]));
        k = k + 1;
    }
}

/// The lines of a squiggly heredoc's part, each non-empty one behind `indent`.
fn indent_heredoc_lines(part: &[u8], indent: &[u8]) -> (r: Vec<u8>)
    ensures
        r@ == indent_lines(part@, Seq::empty(), indent@),
{
    let mut new_contents: Vec<u8> = Vec::new();
    let mut line_start: usize = 0;
    let mut i: usize = 0;
    assert(part@.skip(0) =~= part@);
    assert(part@.subrange(0, 0) =~= Seq::<u8>::empty());
    assert(new_contents@ + indent_lines(part@, Seq::empty(), indent@) =~= indent_lines(part@, Seq::empty(), indent@));
    while i < part.len()
        invariant
            line_start <= i <= part@.len(),
            indent_lines(part@, Seq::empty(), indent@) == new_contents@ + indent_lines(
                part@.skip(i as int),
                part@.subrange(line_start as int, i as int),
                indent@,
            ),
        decreases part@.len() - i,
    {
        let ghost rest = part@.skip(i as int);
        assert(rest[0] == part@[i as int]);
        assert(rest.skip(1) =~= part@.skip(i + 1));
        if part[i] == 10u8 {
            let ghost before = new_contents@;
            if i > line_start {
                push_range(&mut new_contents, indent, 0, indent.len());
                assert(indent@.subrange(0, indent@.len() as int) =~= indent@);
            }
            push_range(&mut new_contents, part, line_start, i);
            new_contents.push(10u8);
            assert(part@.subrange(i + 1, i + 1) =~= Seq::<u8>::empty());
            assert(new_contents@ =~= before + indent_line(part@.subrange(line_start as int, i as int), indent@)
                + seq![10u8]);
            line_start = i + 1;
        } else {
            assert(part@.subrange(line_start as int, i as int).push(part@[i as int]) =~= part@.subrange(
                line_start as int,
                i + 1,
            ));
        }
        i = i + 1;
    }
    let ghost before = new_contents@;
    if i > line_start {
        push_range(&mut new_contents, indent, 0, indent.len());
        assert(indent@.subrange(0, indent@.len() as int) =~= indent@);
    }
    push_range(&mut new_contents, part, line_start, i);
    assert(part@.skip(i as int) =~= Seq::<u8>::empty());
    assert(new_contents@ =~= before + indent_line(part@.subrange(line_start as int, i as int), indent@));
    new_contents
}

impl RenderQueueWriter {
    pub fn new(tokens: Vec<ConcreteLineTokenAndTargets>) -> (r: Self)
        ensures
            r.tokens == tokens,
    {
        RenderQueueWriter { tokens }
    }

    /// Whether every heredoc anywhere in the queue can be written out.
    pub open spec fn renderable(&self) -> bool {
        forall|k: int| 0 <= k < self.tokens@.len() ==> cdeep_ok(#[trigger] self.tokens@[k])
    }

    /// Lays the queue out and appends the bytes of the final tokens to `writer`,
    /// without trailing blank lines. Where `layout_of` names the tokens,
    /// they are those tokens.
    pub fn write(self, writer: &mut Vec<u8>)
        requires
            self.renderable(),
        ensures
            final(writer)@ == old(writer)@ + ruby_of(trim_final(layout_of(self.tokens@))),
            exists|toks: Seq<ConcreteLineToken>|
                laid_out(self.tokens@, toks) && final(writer)@ == old(writer)@ + ruby_of(
                    #[trigger] trim_final(toks),
                ),
    {
        let ghost q = self.tokens@;
        let toks = self.into_tokens();
        let ghost t = toks@;
        Self::write_final_tokens(writer, toks);
        proof {
            lemma_written_bytes_eq(t, layout_of(q));
        }
    }

    /// Convert the render queue to final tokens without writing them.
    /// This is used for extracting heredoc segments. The tokens are those of
    /// `layout_of`, up to which vectors hold their bytes.
    pub fn into_tokens(self) -> (r: Vec<ConcreteLineToken>)
        requires
            self.renderable(),
        ensures
            laid_out(self.tokens@, r@),
    {
        let mut accum = Intermediary::new();
        let ghost d = max_depth(self.tokens@);
        let ghost q = self.tokens@;
        proof {
            crate::render_targets::lemma_tokens_bounded_by_max(self.tokens@);
        }
        proof {
            assert(accum.tokens@ =~= Seq::<ConcreteLineToken>::empty());
            assert((accum.view_state(), accum.additional_indent) == empty_layout_state());
            lemma_queue_eq_refl(q);
        }
        Self::render_as(&mut accum, self.tokens, Ghost(d));
        proof {
            assert(state_eq((accum.view_state(), accum.additional_indent), queue_model(empty_layout_state(), q, d)));
        }
        accum.into_tokens()
    }

    #[verifier::rlimit(60)]
    fn render_as(accum: &mut Intermediary, tokens: Vec<ConcreteLineTokenAndTargets>, Ghost(d): Ghost<nat>)
        requires
            old(accum).wf(),
            tokens_bounded(tokens@, d),
        ensures
            final(accum).wf(),
            no_chain_markers(old(accum).tokens@) ==> no_chain_markers(final(accum).tokens@),
            tokens@.len() == 0 ==> *final(accum) == *old(accum),
            (last_kept(tokens@) matches Some(t) ==> final(accum).tokens@.len() > 0 && final(accum).tokens@.last()
                == t),
            forall|s: LayoutState, q: Seq<ConcreteLineTokenAndTargets>|
                #![trigger queue_model(s, q, d)]
                state_eq(s, (old(accum).view_state(), old(accum).additional_indent)) && queue_eq(q, tokens@)
                    ==> state_eq((final(accum).view_state(), final(accum).additional_indent), queue_model(s, q, d)),
        decreases d, 1nat,
    {
        let ghost orig = tokens@;
        let ghost init: LayoutState = (accum.view_state(), accum.additional_indent);
        proof {
            assert(orig.take(0) =~= Seq::<ConcreteLineTokenAndTargets>::empty());
            assert forall|s: LayoutState, q: Seq<ConcreteLineTokenAndTargets>|
                #![trigger queue_fold(s, q, 0nat, d)]
                state_eq(s, init) && queue_eq(q, orig) implies state_eq(init, queue_fold(s, q, 0nat, d).0)
                && queue_fold(s, q, 0nat, d).1 == None::<HeredocKind> by {
                lemma_state_eq_sym(s, init);
            }
        }
        let mut tokens = tokens;
        let token_len = tokens.len();
        let mut current_heredoc_kind: Option<HeredocKind> = None;
        let mut index: usize = 0;
        let ghost keep = no_chain_markers(accum.tokens@);
        while index < token_len
            invariant
                token_len == tokens@.len(),
                index <= token_len,
                accum.wf(),
                keep ==> no_chain_markers(accum.tokens@),
                forall|k: int| index <= k < token_len ==> tokens@[k] == orig[k],
                orig.len() == token_len,
                index > 0 ==> (last_kept(orig.take(index as int)) matches Some(t) ==> accum.tokens@.len() > 0
                    && accum.tokens@.last() == t),
                index == 0 ==> *accum == *old(accum),
                tokens_bounded(tokens@, d),
                fold_matches(init, orig, index as nat, d, (accum.view_state(), accum.additional_indent), current_heredoc_kind),
            decreases token_len - index,
        {
            let mut next_token = ConcreteLineTokenAndTargets::ConcreteLineToken(
                ConcreteLineToken::AfterCallChain,
            );
            assert(cdepth(next_token) == 0 && cdeep_ok(next_token));
            let ghost before = tokens@;
            tokens.set_and_swap(index, &mut next_token);
            assert(cdepth(next_token) <= d && cdeep_ok(next_token));
            assert(tokens_bounded(tokens@, d)) by {
                assert forall|k: int| 0 <= k < tokens@.len() implies cdepth(#[trigger] tokens@[k]) <= d
                    && cdeep_ok(tokens@[k]) by {
                    if k != index {
                        assert(tokens@[k] == before[k]);
                    }
                }
            }
            let ghost kind0 = current_heredoc_kind;
            let ghost state0: LayoutState = (accum.view_state(), accum.additional_indent);
            let ghost nc = closes_after(orig, index + 1);
            let ghost t_o = next_token;
            assert(t_o == orig[index as int]);
            // Do any additional indentation changes caused by call chain rendering
            let extra = extra_indent_width(accum.additional_indent);
            let mut replacement: Option<ConcreteLineTokenAndTargets> = None;
            match &next_token {
                ConcreteLineTokenAndTargets::ConcreteLineToken(ConcreteLineToken::Indent { depth }) => {
                    let is_ending_heredoc_token = index + 1 < token_len && matches!(
                        &tokens[index + 1],
                        ConcreteLineTokenAndTargets::ConcreteLineToken(ConcreteLineToken::HeredocClose { .. })
                    );
                    assert(is_ending_heredoc_token == nc);
                    if !is_ending_heredoc_token {
                        replacement = Some(
                            clats_indent(depth.saturating_add(accum.additional_indent.saturating_add(accum.additional_indent))),
                        );
                    }
                },
                ConcreteLineTokenAndTargets::ConcreteLineToken(ConcreteLineToken::Comment { contents }) => {
                    if contents.len() > 0 && extra > 0 {
                        let new_contents = prefixed(indent_vec(extra), contents.as_slice());
                        proof {
                            lemma_named_tokens(ConcreteLineToken::Comment { contents: new_contents });
                        }
                        replacement = Some(
                            ConcreteLineTokenAndTargets::ConcreteLineToken(
                                ConcreteLineToken::Comment { contents: new_contents },
                            ),
                        );
                    }
                },
                ConcreteLineTokenAndTargets::ConcreteLineToken(ConcreteLineToken::DirectPart { part }) => {
                    let squiggly = match current_heredoc_kind {
                        Some(k) => k.is_squiggly(),
                        None => false,
                    };
                    if squiggly && extra > 0 {
                        let indent = indent_vec(extra);
                        let new_contents = indent_heredoc_lines(part.as_slice(), indent.as_slice());
                        proof {
                            lemma_named_tokens(ConcreteLineToken::DirectPart { part: new_contents });
                        }
                        replacement = Some(clats_direct_part(new_contents));
                    }
                },
                ConcreteLineTokenAndTargets::ConcreteLineToken(
                    ConcreteLineToken::HeredocStart { kind, .. },
                ) => {
                    current_heredoc_kind = Some(*kind);
                },
                ConcreteLineTokenAndTargets::ConcreteLineToken(ConcreteLineToken::HeredocClose { symbol }) => {
                    // Bare heredocs (e.g. <<FOO) must have the closing ident completely unindented, so
                    // ignore them in this case
                    let not_bare = match current_heredoc_kind {
                        Some(k) => !k.is_bare(),
                        None => false,
                    };
                    if not_bare && extra > 0 {
                        let new_contents = prefixed(indent_vec(extra), symbol.as_slice());
                        proof {
                            lemma_named_tokens(ConcreteLineToken::HeredocClose { symbol: new_contents });
                        }
                        replacement = Some(clats_heredoc_close(new_contents));
                    }
                    current_heredoc_kind = None;
                },
                _ => {},
            }
            if let Some(r) = replacement {
                next_token = r;
            }
            proof {
                if t_o is ConcreteLineToken {
                    assert(next_token is ConcreteLineToken);
                    assert(tok_eq(next_token->ConcreteLineToken_0, token_as_written((state0, kind0), t_o->ConcreteLineToken_0, nc)));
                } else {
                    assert(next_token == t_o);
                }
                assert(current_heredoc_kind == match t_o {
                    ConcreteLineTokenAndTargets::ConcreteLineToken(ConcreteLineToken::HeredocStart { kind, .. }) => Some(kind),
                    ConcreteLineTokenAndTargets::ConcreteLineToken(ConcreteLineToken::HeredocClose { .. }) => None,
                    _ => kind0,
                });
            }
            let ghost t_a = next_token;
            match next_token {
                ConcreteLineTokenAndTargets::BreakableEntry(be) => {
                    Self::format_breakable_entry(accum, be, Ghost(d));
                },
                ConcreteLineTokenAndTargets::BreakableCallChainEntry(bcce) => {
                    Self::format_breakable_call_chain_entry(accum, bcce, Ghost(d));
                },
                ConcreteLineTokenAndTargets::ConcreteLineToken(x) => match x {
                    ConcreteLineToken::BeginCallChainIndent => {
                        accum.additional_indent = accum.additional_indent.saturating_add(1);
                    },
                    ConcreteLineToken::EndCallChainIndent => {
                        accum.additional_indent = accum.additional_indent.saturating_sub(1);
                    },
                    _ => accum.push(x),
                },
            }
            let ghost mid: LayoutState = (accum.view_state(), accum.additional_indent);
            let ghost pre = (accum.tokens@, accum.index_of_last_hard_newline as int, accum.previous_line_metadata is Some);
            Self::fix_up_after_token(accum);
            proof {
                if pre.0.len() > 0 {
                    lemma_fix_up_keeps_last(pre.0, pre.1, pre.2);
                }
                assert(orig.take(index + 1).last() == orig[index as int]);
                assert(orig.take(index + 1).drop_last() =~= orig.take(index as int));
                let post: LayoutState = (accum.view_state(), accum.additional_indent);
                assert(post == fixed(mid));
                match t_a {
                    ConcreteLineTokenAndTargets::ConcreteLineToken(x) => {
                        assert(post == token_step(state0, x));
                        lemma_concrete_step_ok(state0, kind0, t_o->ConcreteLineToken_0, x, nc, d, current_heredoc_kind);
                    },
                    ConcreteLineTokenAndTargets::BreakableEntry(be) => {
                        lemma_entry_step_ok(state0, kind0, be, nc, d, mid);
                    },
                    ConcreteLineTokenAndTargets::BreakableCallChainEntry(b) => {
                        lemma_chain_step_ok(state0, kind0, b, nc, d, mid);
                    },
                }
                lemma_fold_step(init, orig, index as nat, d, state0, kind0, post, current_heredoc_kind);
            }
            index = index + 1;
        }
        proof {
            assert(orig.take(token_len as int) =~= orig);
            assert forall|s: LayoutState, q: Seq<ConcreteLineTokenAndTargets>|
                #![trigger queue_model(s, q, d)]
                state_eq(s, init) && queue_eq(q, orig) implies state_eq(
                (accum.view_state(), accum.additional_indent),
                queue_model(s, q, d),
            ) by {
                assert(queue_fold(s, q, token_len as nat, d) == queue_fold(s, q, q.len(), d));
            }
        }
    }

    /// Blank lines after `end`, and the duplicate indent of a heredoc that
    /// closes right before a method call.
    fn fix_up_after_token(accum: &mut Intermediary)
        requires
            old(accum).wf(),
        ensures
            final(accum).wf(),
            no_chain_markers(old(accum).tokens@) ==> no_chain_markers(final(accum).tokens@),
            (final(accum).tokens@, final(accum).index_of_last_hard_newline as int) == fix_up_model(
                old(accum).tokens@,
                old(accum).index_of_last_hard_newline as int,
            ),
            final(accum).current_line_metadata == old(accum).current_line_metadata,
            final(accum).previous_line_metadata == old(accum).previous_line_metadata,
            final(accum).additional_indent == old(accum).additional_indent,
    {
        let l = accum.tokens.len();
        if l >= 4 {
            let need = matches!(&accum.tokens[l - 4], ConcreteLineToken::End) && matches!(
                &accum.tokens[l - 3],
                ConcreteLineToken::HardNewLine
            ) && matches!(&accum.tokens[l - 2], ConcreteLineToken::Indent { .. })
                && accum.tokens[l - 1].is_in_need_of_a_trailing_blankline();
            if need {
                proof {
                    assert(accum.tokens@[l - 3] is HardNewLine);
                }
                accum.insert_trailing_blankline(BlanklineReason::ComesAfterEnd);
            }
        }
        let l = accum.tokens.len();
        if l >= 7 {
            let shape = matches!(&accum.tokens[l - 7], ConcreteLineToken::End) && matches!(
                &accum.tokens[l - 6],
                ConcreteLineToken::AfterCallChain
            ) && matches!(&accum.tokens[l - 5], ConcreteLineToken::HardNewLine) && matches!(
                &accum.tokens[l - 4],
                ConcreteLineToken::Indent { .. }
            );
            if shape {
                let x = &accum.tokens[l - 3];
                if !matches!(x, ConcreteLineToken::DefKeyword) {
                    let space_then_def = matches!(&accum.tokens[l - 2], ConcreteLineToken::Space)
                        && matches!(&accum.tokens[l - 1], ConcreteLineToken::DefKeyword);
                    if x.is_in_need_of_a_trailing_blankline() && !space_then_def {
                        // If we're here, the last few tokens must look like this:
                        // | token             | index_from_end |
                        // |  End              | 6              |
                        // |. AfterCallChain   | 5              |
                        // |  HardNewline      | 4              | <-- insert after this token
                        // |. Indent           | 3 .            |
                        // |  (ArbitraryToken) | 2              |
                        // |  (ArbitraryToken) | 1              |
                        // |  (ArbitraryToken) | 0              |
                        proof {
                            assert(accum.tokens@[l - 5] is HardNewLine);
                        }
                        accum.insert_blankline_from_end(4);
                    }
                }
            }
        }
        let l = accum.tokens.len();
        if l >= 5 {
            let shape = matches!(&accum.tokens[l - 5], ConcreteLineToken::HeredocClose { .. })
                && matches!(&accum.tokens[l - 4], ConcreteLineToken::HardNewLine) && matches!(
                &accum.tokens[l - 3],
                ConcreteLineToken::Indent { .. }
            ) && matches!(&accum.tokens[l - 2], ConcreteLineToken::Indent { .. }) && matches!(
                &accum.tokens[l - 1],
                ConcreteLineToken::Delim { .. } | ConcreteLineToken::Dot
                    | ConcreteLineToken::DirectPart { .. } | ConcreteLineToken::MethodName { .. }
            );
            if shape {
                proof {
                    assert(accum.tokens@[l - 4] is HardNewLine);
                    let idx = accum.index_of_last_hard_newline as int;
                    if idx != 0 || accum.previous_line_metadata is Some {
                        assert(accum.tokens@[idx] is HardNewLine);
                        assert(idx < l - 2);
                    }
                }
                accum.fix_heredoc_duplicate_indent_mistake();
            }
        }
    }

    fn format_breakable_entry(accum: &mut Intermediary, be: BreakableEntry, Ghost(d): Ghost<nat>)
        requires
            old(accum).wf(),
            cdepth(ConcreteLineTokenAndTargets::BreakableEntry(be)) <= d,
            cdeep_ok(ConcreteLineTokenAndTargets::BreakableEntry(be)),
        ensures
            final(accum).wf(),
            no_chain_markers(old(accum).tokens@) ==> no_chain_markers(final(accum).tokens@),
            final(accum).tokens@.len() > 0,
            final(accum).tokens@.last() matches ConcreteLineToken::Delim { contents } && contents@ == delim_bytes(
                be.delims@,
                entry_layout(old(accum).tokens@, be),
                false,
            ),
            forall|s: LayoutState|
                #![trigger entry_model(s, be, d)]
                state_eq(s, (old(accum).view_state(), old(accum).additional_indent)) ==> state_eq(
                    (final(accum).view_state(), final(accum).additional_indent),
                    entry_model(s, be, d),
                ),
        decreases d, 0nat,
    {
        let ghost s0: LayoutState = (accum.view_state(), accum.additional_indent);
        let ghost be0 = be;
        // We generally will force expressions embedded in strings to be on a single line,
        // but if that expression has a heredoc nested in it, we should let it render across lines
        // so that the collapsing newlines render properly. Similarly, if the entry already
        // contains hard newlines (e.g. a multi-statement brace block), forcing single-line
        // would leave dangling newlines and squash statements together.
        let force_single_line = be.in_string_embexpr()
            && !be.any_collapsing_newline_has_heredoc_content() && !be.contains_hard_newline();
        let ghost ts = be.tokens@;
        proof {
            crate::render_targets::lemma_seq_all_ok_pub(ts);
        }
        let mut tokens: Vec<ConcreteLineTokenAndTargets> = Vec::new();
        let multi = !force_single_line && (be.is_multiline() || Self::renders_over_max_line_length(
            accum,
            &be,
        ));
        if multi {
            be.write_tokens(ConvertType::MultiLine, &mut tokens);
        } else {
            be.write_tokens(ConvertType::SingleLine, &mut tokens);
        }
        proof {
            let w = tokens@;
            assert(w.skip(0) =~= w);
            let inner = w.subrange(1, w.len() - 1);
            lemma_out_bounded(ts, inner, multi);
            assert forall|k: int| 0 <= k < w.len() implies cdepth(#[trigger] w[k]) <= (d - 1) as nat
                && cdeep_ok(w[k]) by {
                if 1 <= k < w.len() - 1 {
                    assert(inner[k - 1] == w[k]);
                } else if k == 0 {
                    assert(w.take(1)[0] == w[k]);
                } else {
                    assert(w.skip(w.len() - 1)[0] == w[k]);
                }
            }
        }
        proof {
            let ct = if multi {
                ConvertType::MultiLine
            } else {
                ConvertType::SingleLine
            };
            assert(ct == entry_layout(s0.0.0, be0));
            let w = tokens@;
            lemma_written(ts, w.subrange(1, w.len() - 1), multi);
            let wm = entry_written(be0, ct);
            assert(queue_eq(wm, w)) by {
                assert forall|i: int| 0 <= i < wm.len() implies #[trigger] clat_eq(wm[i], w[i]) by {
                    if 1 <= i < w.len() - 1 {
                        assert(clat_eq(all_written(ts, ct)[i - 1], w.subrange(1, w.len() - 1)[i - 1]));
                    }
                }
            }
            assert(cdepth(ConcreteLineTokenAndTargets::BreakableEntry(be0)) >= 1);
        }
        let ghost mid0 = tokens@;
        Self::render_as(accum, tokens, Ghost((d - 1) as nat));
        let ghost mid: LayoutState = (accum.view_state(), accum.additional_indent);
        if !multi {
            // after running accum looks like this (or some variant):
            // [.., Comma, Space, DirectPart {part: ""}, <close_delimiter>]
            // so we remove items at positions length-2 until there is nothing
            // in that position that is garbage.
            let ghost pre = accum.tokens@;
            accum.clear_breakable_garbage();
            proof {
                crate::intermediary::lemma_cleared_garbage(pre);
            }
        }
        proof {
            let ct = if multi {
                ConvertType::MultiLine
            } else {
                ConvertType::SingleLine
            };
            assert forall|s: LayoutState| #![trigger entry_model(s, be0, d)] state_eq(s, s0) implies state_eq(
                (accum.view_state(), accum.additional_indent),
                entry_model(s, be0, d),
            ) by {
                crate::intermediary::lemma_line_length_eq(s.0.0, s0.0.0);
                assert(entry_layout(s.0.0, be0) == ct);
                let wm = entry_written(be0, ct);
                assert(state_eq(mid, queue_model(s, wm, (d - 1) as nat)));
                if !multi {
                    lemma_garbage_cleared_eq(mid, queue_model(s, wm, (d - 1) as nat));
                }
            }
        }
    }

    fn format_breakable_call_chain_entry(
        accum: &mut Intermediary,
        bcce: BreakableCallChainEntry,
        Ghost(d): Ghost<nat>,
    )
        requires
            old(accum).wf(),
            cdepth(ConcreteLineTokenAndTargets::BreakableCallChainEntry(bcce)) <= d,
            cdeep_ok(ConcreteLineTokenAndTargets::BreakableCallChainEntry(bcce)),
        ensures
            final(accum).wf(),
            no_chain_markers(old(accum).tokens@) ==> no_chain_markers(final(accum).tokens@),
            bcce.tokens@.len() == 0 ==> *final(accum) == *old(accum),
            (abstract_last_kept(bcce.tokens@) matches Some(t) ==> final(accum).tokens@.len() > 0
                && final(accum).tokens@.last() == t),
            forall|s: LayoutState|
                #![trigger chain_model(s, bcce, d)]
                state_eq(s, (old(accum).view_state(), old(accum).additional_indent)) ==> state_eq(
                    (final(accum).view_state(), final(accum).additional_indent),
                    chain_model(s, bcce, d),
                ),
        decreases d, 0nat,
    {
        let ghost s0: LayoutState = (accum.view_state(), accum.additional_indent);
        let ghost b0 = bcce;
        let mut bcce = bcce;
        let must_multiline = bcce.any_collapsing_newline_has_heredoc_content()
            && bcce.in_string_embexpr();
        let mut tokens: Vec<ConcreteLineTokenAndTargets> = Vec::new();
        let multi = must_multiline || ((bcce.is_multiline() || Self::renders_over_max_line_length(
            accum,
            &bcce,
        )) && !bcce.in_string_embexpr());
        let ghost orig = bcce.tokens@;
        if !multi {
            let ghost before = bcce.tokens@;
            bcce.remove_call_chain_magic_tokens();
            proof {
                crate::render_targets::lemma_filter_bounds(before, bcce.tokens@);
                reveal(Seq::filter);
                if before.len() > 0 {
                    assert(before.filter(|t: AbstractLineToken| !is_chain_indent_magic(t)) == {
                        let sub = before.drop_last().filter(|t: AbstractLineToken| !is_chain_indent_magic(t));
                        if !is_chain_indent_magic(before.last()) {
                            sub.push(before.last())
                        } else {
                            sub
                        }
                    });
                }
            }
        }
        let ghost ts = bcce.tokens@;
        proof {
            crate::render_targets::lemma_seq_all_ok_pub(ts);
        }
        if multi {
            bcce.write_tokens(ConvertType::MultiLine, &mut tokens);
        } else {
            bcce.write_tokens(ConvertType::SingleLine, &mut tokens);
        }
        proof {
            let w = tokens@;
            assert(w.skip(0) =~= w);
            assert(w.subrange(0, w.len() as int) =~= w);
            lemma_out_bounded(ts, w, multi);
            if abstract_last_kept(ts) is Some {
                if multi {
                    assert(crate::render_targets::all_multi_line_out(ts, w));
                    assert(crate::line_tokens::multi_line_out(ts.last(), w.skip(w.len() - 1)));
                } else {
                    assert(crate::render_targets::all_single_line_out(ts, w));
                    assert(crate::line_tokens::single_line_out(ts.last(), w.skip(w.len() - 1)));
                }
                assert(w.skip(w.len() - 1)[0] == w.last());
            }
            let ct = if multi {
                ConvertType::MultiLine
            } else {
                ConvertType::SingleLine
            };
            assert(ct == chain_layout(s0.0.0, b0));
            assert(ts == chain_tokens(b0, ct));
            lemma_written(ts, w, multi);
            assert(cdepth(ConcreteLineTokenAndTargets::BreakableCallChainEntry(b0)) >= 1);
        }
        let ghost wv = tokens@;
        Self::render_as(accum, tokens, Ghost((d - 1) as nat));
        proof {
            let ct = if multi {
                ConvertType::MultiLine
            } else {
                ConvertType::SingleLine
            };
            assert forall|s: LayoutState| #![trigger chain_model(s, b0, d)] state_eq(s, s0) implies state_eq(
                (accum.view_state(), accum.additional_indent),
                chain_model(s, b0, d),
            ) by {
                crate::intermediary::lemma_line_length_eq(s.0.0, s0.0.0);
                assert(chain_layout(s.0.0, b0) == ct);
                let wm = all_written(chain_tokens(b0, ct), ct);
                assert(queue_eq(wm, wv));
                assert(state_eq((accum.view_state(), accum.additional_indent), queue_model(s, wm, (d - 1) as nat)));
            }
        }
    }

    fn renders_over_max_line_length<T: AbstractTokenTarget>(accum: &Intermediary, breakable: &T) -> (r: bool)
        ensures
            r == (sat(breakable.spec_single_line_string_length(
                crate::intermediary::line_length(accum.tokens@),
            )) > MAX_LINE_LENGTH),
    {
        breakable.single_line_string_length(accum.current_line_length()) > MAX_LINE_LENGTH
    }

    /// Drops trailing blank lines and appends the bytes of the tokens.
    fn write_final_tokens(writer: &mut Vec<u8>, tokens: Vec<ConcreteLineToken>)
        ensures
            final(writer)@ == old(writer)@ + ruby_of(trim_final(tokens@)),
    {
        let ghost orig = tokens@;
        let mut tokens = tokens;
        loop
            invariant_except_break
                trim_final(tokens@) == trim_final(orig),
            ensures
                tokens@ == trim_final(orig),
            decreases tokens@.len(),
        {
            let len = tokens.len();
            if len < 2 {
                break ;
            }
            let delete = match (&tokens[len - 2], &tokens[len - 1]) {
                (ConcreteLineToken::Comment { contents }, ConcreteLineToken::HardNewLine) => contents.len()
                    == 0,
                (ConcreteLineToken::HardNewLine, ConcreteLineToken::HardNewLine) => true,
                _ => false,
            };
            if delete {
                tokens.pop();
            } else {
                break ;
            }
        }
        let ghost fin = tokens@;
        let n = tokens.len();
        let mut i: usize = 0;
        let ghost start = writer@;
        assert(ruby_of(fin.take(0)) =~= Seq::<u8>::empty());
        while i < n
            invariant
                n == fin.len(),
                i <= n,
                tokens@.len() == n,
                forall|k: int| i <= k < n ==> tokens@[k] == fin[k],
                writer@ == start + ruby_of(fin.take(i as int)),
            decreases n - i,
        {
            let mut t = ConcreteLineToken::AfterCallChain;
            let ghost before = tokens@;
            tokens.set_and_swap(i, &mut t);
            assert(t == fin[i as int]);
            let bytes = t.into_ruby();
            let mut k: usize = 0;
            let ghost w0 = writer@;
            while k < bytes.len()
                invariant
                    k <= bytes@.len(),
                    writer@ == w0 + bytes@.take(k as int),
                decreases bytes@.len() - k,
            {
                writer.push(bytes[k]);
                assert(bytes@.take(k + 1) =~= bytes@.take(k as int).push(bytes@[k as int]));
                k = k + 1;
            }
            assert(bytes@.take(k as int) =~= bytes@);
            assert(fin.take(i + 1).drop_last() =~= fin.take(i as int));
            assert(writer@ =~= start + ruby_of(fin.take(i + 1)));
            assert forall|k: int| i + 1 <= k < n implies tokens@[k] == fin[k] by {
                assert(tokens@[k] == before[k]);
            }
            i = i + 1;
        }
        assert(fin.take(n as int) =~= fin);
    }
}

/// The deepest nesting among the tokens.
pub open spec fn max_depth(s: Seq<ConcreteLineTokenAndTargets>) -> nat
    decreases s.len(),
{
    if s.len() == 0 {
        0
    } else {
        let a = max_depth(s.drop_last());
        let b = cdepth(s.last());
        if a >= b {
            a
        } else {
            b
        }
    }
}

} // verus!
