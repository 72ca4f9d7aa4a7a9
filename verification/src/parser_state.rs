use crate::comment_block::{comment_tokens, newline_count, view_line_count, CommentBlock, Merge};
use crate::file_comments::{block_view, count_through, extracted, BlockView};
use crate::delimiters::BreakableDelims;
use crate::file_comments::FileComments;
use crate::heredoc_string::{render_segments, HeredocKind, HeredocSegment, HeredocString};
use crate::line_tokens::{
    abstract_heredocs_ok, abstract_of, heredocs_ok, AbstractLineToken, ConcreteLineToken,
    ConcreteLineTokenAndTargets,
};
use crate::render_queue_writer::RenderQueueWriter;
use crate::render_targets::{
    abstract_last_break, adeep_ok, adeep_ok_seq, last_break, lemma_seq_ok_all, BaseQueue, Breakable,
    BreakableCallChainEntry, BreakableEntry,
};
use crate::types::{ColNumber, LineNumber, SourceOffset};
use vstd::prelude::*;

verus! {

#[derive(Clone, Copy, Debug, PartialEq, Eq, Structural)]
pub enum FormattingContext {
    Main,
    Binary,
    ClassOrModule,
    Def,
    IfOp,
    StringEmbexpr,
    HashType(HashType),
}

#[derive(Clone, Copy, Debug, PartialEq, Eq, Structural)]
pub enum HashType {
    SymbolKey,
    HashRocket,
}

/// How deep indentation may nest: twice the depth, plus the two spaces of a
/// squiggly heredoc's body, must still be a column number and a length.
pub const DEPTH_LIMIT: u32 = 0x7fff_fffe;

/// The nesting depth of indentation.
#[derive(Debug, Clone, Copy)]
pub struct IndentDepth {
    pub depth: ColNumber,
}

impl IndentDepth {
    pub fn new() -> (r: Self)
        ensures
            r.depth == 0,
    {
        IndentDepth { depth: 0 }
    }

    pub fn increment(&mut self)
        requires
            old(self).depth < u32::MAX,
        ensures
            final(self).depth == old(self).depth + 1,
    {
        self.depth = self.depth + 1;
    }

    pub fn decrement(&mut self)
        requires
            old(self).depth > 0,
        ensures
            final(self).depth == old(self).depth - 1,
    {
        self.depth = self.depth - 1;
    }

    pub fn get(self) -> (r: u32)
        ensures
            r == self.depth,
    {
        self.depth
    }
}

/// Every token can be asked whether it is a newline, and every heredoc it
/// carries can be written out.
pub open spec fn tokens_ok(s: Seq<AbstractLineToken>) -> bool {
    forall|k: int| 0 <= k < s.len() ==> adeep_ok(#[trigger] s[k]) && s[k].newline_safe()
}

/// The tokens of the render queue, as abstract tokens.
pub open spec fn queue_view(q: Seq<ConcreteLineTokenAndTargets>) -> Seq<AbstractLineToken> {
    q.map_values(|t: ConcreteLineTokenAndTargets| abstract_of(t))
}

/// The state of formatting: the render queue, the stack of breakable entries
/// being filled, and what is pending (comments, heredocs).
#[derive(Debug)]
pub struct ParserState {
    pub indent_depth: IndentDepth,
    pub start_of_line: Vec<bool>,
    pub suppress_comments_stack: Vec<bool>,
    pub render_queue: BaseQueue,
    pub current_orig_line_number: LineNumber,
    pub comments_hash: FileComments,
    pub heredoc_strings: Vec<HeredocString>,
    pub comments_to_insert: Option<CommentBlock>,
    pub breakable_entry_stack: Vec<Breakable>,
    pub formatting_context: Vec<FormattingContext>,
    pub insert_user_newlines: bool,
    pub spaces_after_last_newline: ColNumber,
    pub scopes: Vec<Vec<Vec<u8>>>,
    /// Whether we're currently rendering inside a squiggly heredoc's content.
    /// Used to mark nested non-squiggly heredocs so they don't get incorrect indentation.
    pub inside_squiggly_heredoc: bool,
}

impl ParserState {
    /// The tokens of the innermost breakable entry, or of the render queue
    /// when no entry is open: where new tokens go.
    pub open spec fn target(&self) -> Seq<AbstractLineToken> {
        if self.breakable_entry_stack@.len() > 0 {
            self.breakable_entry_stack@.last().spec_tokens()
        } else {
            queue_view(self.render_queue.tokens@)
        }
    }

    /// Where tokens go once the innermost breakable entry is closed: the
    /// entry below it, or the render queue.
    pub open spec fn outer_target(&self) -> Seq<AbstractLineToken> {
        let n = self.breakable_entry_stack@.len();
        if n > 1 {
            self.breakable_entry_stack@[n - 2].spec_tokens()
        } else {
            queue_view(self.render_queue.tokens@)
        }
    }

    /// The state's invariant: its stacks are never empty, indentation stays
    /// within bounds, the comments are ordered, and every token and heredoc
    /// can be laid out.
    pub open spec fn wf(&self) -> bool {
        &&& self.start_of_line@.len() > 0
        &&& self.suppress_comments_stack@.len() > 0
        &&& self.formatting_context@.len() > 0
        &&& self.scopes@.len() > 0
        &&& self.indent_depth.depth <= DEPTH_LIMIT
        &&& self.comments_hash.wf()
        &&& heredocs_ok(self.heredoc_strings@)
        &&& tokens_ok(queue_view(self.render_queue.tokens@))
        &&& forall|i: int|
            0 <= i < self.breakable_entry_stack@.len() ==> tokens_ok(
                #[trigger] self.breakable_entry_stack@[i].spec_tokens(),
            )
    }

    /// The breakable entries are as in `old`, but for the tokens of the
    /// innermost one; the render queue too unless it is the target.
    pub open spec fn frames_kept(&self, old: &ParserState) -> bool {
        let n = old.breakable_entry_stack@.len();
        &&& self.breakable_entry_stack@.len() == n
        &&& forall|i: int| 0 <= i < n - 1 ==> #[trigger] self.breakable_entry_stack@[i] == old.breakable_entry_stack@[i]
        &&& n > 0 ==> old.breakable_entry_stack@[n - 1].same_frame(self.breakable_entry_stack@[n - 1])
            && self.render_queue == old.render_queue
        &&& stack_kinds(self.breakable_entry_stack@) == stack_kinds(old.breakable_entry_stack@)
    }

    /// Everything is as in `old` but for the tokens of the target.
    pub open spec fn same_but_target(&self, old: &ParserState) -> bool {
        &&& self.indent_depth == old.indent_depth
        &&& self.start_of_line == old.start_of_line
        &&& self.suppress_comments_stack == old.suppress_comments_stack
        &&& self.current_orig_line_number == old.current_orig_line_number
        &&& self.comments_hash == old.comments_hash
        &&& self.heredoc_strings == old.heredoc_strings
        &&& self.comments_to_insert == old.comments_to_insert
        &&& self.formatting_context == old.formatting_context
        &&& self.insert_user_newlines == old.insert_user_newlines
        &&& self.spaces_after_last_newline == old.spaces_after_last_newline
        &&& self.scopes == old.scopes
        &&& self.inside_squiggly_heredoc == old.inside_squiggly_heredoc
        &&& self.frames_kept(old)
    }

    /// Where `index_of_prev_hard_newline` points: after the last newline, or
    /// at the last indent (a hard newline counts as a place to insert before).
    pub open spec fn spec_prev_newline(&self) -> Option<int> {
        if self.breakable_entry_stack@.len() > 0 {
            let ts = self.breakable_entry_stack@.last().spec_tokens();
            match abstract_last_break(ts) {
                Some(i) => if ts[i] is CollapsingNewLine || ts[i] is SoftNewline {
                    Some(i + 1)
                } else {
                    Some(i)
                },
                None => None,
            }
        } else {
            last_break(self.render_queue.tokens@)
        }
    }

    /// Every breakable entry has seen `line` (its tokens may have changed
    /// since); the render queue is as in `old` unless it is the target.
    pub open spec fn lines_pushed(&self, old: &ParserState, line: LineNumber) -> bool {
        let n = old.breakable_entry_stack@.len();
        &&& self.breakable_entry_stack@.len() == n
        &&& forall|i: int| 0 <= i < n ==> #[trigger] old.breakable_entry_stack@[i].after_line_frame(
            self.breakable_entry_stack@[i],
            line,
        )
        &&& forall|i: int| 0 <= i < n - 1 ==> #[trigger] self.breakable_entry_stack@[i].spec_tokens()
            == old.breakable_entry_stack@[i].spec_tokens()
        &&& n > 0 ==> self.render_queue == old.render_queue
    }

    /// Tells every open breakable entry that `line` was reached.
    pub fn stack_push_line_number(&mut self, line: LineNumber)
        requires
            old(self).wf(),
        ensures
            final(self).wf(),
            final(self).breakable_entry_stack@.len() == old(self).breakable_entry_stack@.len(),
            forall|i: int| 0 <= i < old(self).breakable_entry_stack@.len() ==> #[trigger] old(self).breakable_entry_stack@[i].after_line(
                final(self).breakable_entry_stack@[i],
                line,
            ),
            final(self).target() == old(self).target(),
            *final(self) == (ParserState { breakable_entry_stack: final(self).breakable_entry_stack, ..*old(self) }),
    {
        let ghost st = self.breakable_entry_stack@;
        let mut stack: Vec<Breakable> = Vec::new();
        std::mem::swap(&mut stack, &mut self.breakable_entry_stack);
        let mut done: Vec<Breakable> = Vec::new();
        while stack.len() > 0
            invariant
                stack@.len() + done@.len() == st.len(),
                stack@ == st.take(stack@.len() as int),
                forall|j: int| 0 <= j < done@.len() ==> #[trigger] st[st.len() - 1 - j].after_line(done@[j], line),
            decreases stack@.len(),
        {
            let mut b = stack.pop().unwrap();
            b.push_line_number(line);
            done.push(b);
        }
        let ghost dn = done@;
        while done.len() > 0
            invariant
                stack@.len() + done@.len() == st.len(),
                done@ == dn.take(done@.len() as int),
                dn.len() == st.len(),
                forall|j: int| 0 <= j < dn.len() ==> #[trigger] st[st.len() - 1 - j].after_line(dn[j], line),
                forall|i: int| 0 <= i < stack@.len() ==> #[trigger] st[i].after_line(stack@[i], line),
            decreases done@.len(),
        {
            let b = done.pop().unwrap();
            proof {
                assert(st[st.len() - 1 - (done@.len())].after_line(dn[done@.len() as int], line));
            }
            stack.push(b);
        }
        std::mem::swap(&mut stack, &mut self.breakable_entry_stack);
        proof {
            let ns = self.breakable_entry_stack@;
            assert forall|i: int| 0 <= i < ns.len() implies tokens_ok(#[trigger] ns[i].spec_tokens()) by {
                assert(st[i].after_line(ns[i], line));
                assert(ns[i].spec_tokens() == st[i].spec_tokens());
                assert(tokens_ok(old(self).breakable_entry_stack@[i].spec_tokens()));
            }
            if ns.len() > 0 {
                assert(st[ns.len() - 1].after_line(ns[ns.len() - 1], line));
            }
        }
    }

    /// The target with a hard newline inserted where `insert_extra_newline_at_last_newline` puts it.
    pub open spec fn with_newline_at_prev(&self) -> Seq<AbstractLineToken> {
        let idx = match self.spec_prev_newline() {
            Some(i) => i,
            None => 0,
        };
        self.target().take(idx) + seq![AbstractLineToken::ConcreteLineToken(ConcreteLineToken::HardNewLine)]
            + self.target().skip(idx)
    }

    /// Whether `on_line(line)` inserts a blank line: user newlines are kept and
    /// `line` skips a line after the current line (moved past the comments that
    /// were taken out on the way).
    pub open spec fn on_line_inserts_newline(&self, line: LineNumber) -> bool {
        let cs = self.comments_hash.comments_view();
        let cur = self.current_orig_line_number;
        let cur2 = if cs.len() == 0 || cs[0].0 > line {
            cur
        } else {
            let ex = extracted(cs, cur, line);
            let pushed = line_after_block(cur, ex.0, self.suppress_comments_stack@.last());
            if pushed >= ex.1 {
                pushed
            } else {
                ex.1
            }
        };
        self.insert_user_newlines && requires_newline(line as int, cur2 as int)
    }

    /// Inserts a hard newline after the last newline of the target.
    pub fn insert_extra_newline_at_last_newline(&mut self)
        requires
            old(self).wf(),
        ensures
            final(self).wf(),
            final(self).target() == old(self).with_newline_at_prev(),
            final(self).same_but_target(old(self)),
    {
        let idx = self.index_of_prev_hard_newline();
        let insert_idx = match idx {
            Some(i) => i,
            None => 0,
        };
        let toks = vec![ConcreteLineToken::HardNewLine];
        assert(toks@.map_values(|c: ConcreteLineToken| AbstractLineToken::ConcreteLineToken(c)) =~= seq![
            AbstractLineToken::ConcreteLineToken(ConcreteLineToken::HardNewLine),
        ]);
        self.insert_concrete_tokens(insert_idx, toks);
    }

    /// Adds comments to the pending ones, indented for the current line.
    pub fn insert_comment_collection(&mut self, comments: CommentBlock)
        requires
            old(self).wf(),
        ensures
            final(self).wf(),
            final(self).comments_to_insert is Some,
            crate::file_comments::opt_block_view(final(self).comments_to_insert) == Some(
                queued_comments(
                    crate::file_comments::opt_block_view(old(self).comments_to_insert),
                    block_view(comments),
                    old(self).spaces_after_last_newline as nat,
                ),
            ),
            *final(self) == (ParserState { comments_to_insert: final(self).comments_to_insert, ..*old(self) }),
    {
        let ghost b = comments;
        let spaced = comments.apply_spaces(self.spaces_after_last_newline);
        let ghost sp = spaced;
        self.comments_to_insert.merge(spaced);
        proof {
            let n = old(self).spaces_after_last_newline as nat;
            let f = |c: Vec<u8>| c@;
            assert(sp.comments@.map_values(f) =~= b.comments@.map_values(f).map_values(
                |c: Seq<u8>| crate::comment_block::indented_comment(c, n),
            ));
            match old(self).comments_to_insert {
                Some(this) => {
                    let fin = self.comments_to_insert->0;
                    assert(fin.comments@.map_values(f) =~= this.comments@.map_values(f) + sp.comments@.map_values(f));
                },
                None => {},
            }
        }
    }

    /// Queues comments for output (unless comments are suppressed), moving
    /// the current line past a block of several lines.
    pub fn push_comments(&mut self, comments: CommentBlock)
        requires
            old(self).wf(),
            comments.span.start < LineNumber::MAX,
        ensures
            final(self).wf(),
            final(self).current_orig_line_number == line_after_block(
                old(self).current_orig_line_number,
                block_view(comments),
                old(self).suppress_comments_stack@.last(),
            ),
            old(self).suppress_comments_stack@.last() ==> *final(self) == *old(self),
            !old(self).suppress_comments_stack@.last() ==> final(self).comments_to_insert is Some,
            !old(self).suppress_comments_stack@.last() ==> crate::file_comments::opt_block_view(
                final(self).comments_to_insert,
            ) == Some(
                queued_comments(
                    crate::file_comments::opt_block_view(old(self).comments_to_insert),
                    block_view(comments),
                    old(self).spaces_after_last_newline as nat,
                ),
            ),
            *final(self) == (ParserState {
                comments_to_insert: final(self).comments_to_insert,
                current_orig_line_number: final(self).current_orig_line_number,
                ..*old(self)
            }),
    {
        let suppressed = self.suppress_comments_stack[self.suppress_comments_stack.len() - 1];
        if !suppressed {
            let line_count = comments.line_count();
            let trailing_comment = comments.is_trailing();
            proof {
                crate::comment_block::lemma_view_line_count(comments.comments@);
            }
            self.insert_comment_collection(comments);
            if !trailing_comment {
                self.current_orig_line_number = self.current_orig_line_number.saturating_add(line_count as u64);
            }
        }
    }

    /// What moving to `line` does (see `on_line`), from `a` to `b`.
    pub open spec fn moved_to_line(a: ParserState, b: ParserState, line: LineNumber) -> bool {
        &&& b.wf()
        &&& b.comments_hash.last_lineno == a.comments_hash.last_lineno
        &&& b.frame() == a.frame()
        &&& line < a.current_orig_line_number ==> b == a
        &&& line >= a.current_orig_line_number ==> {
            let cs = a.comments_hash.comments_view();
            &&& b.current_orig_line_number == line
            &&& b.lines_pushed(&a, line)
            &&& b.comments_hash.comments_view() == cs.skip(count_through(cs, line) as int)
            &&& b.target() == if a.on_line_inserts_newline(line) {
                a.with_newline_at_prev()
            } else {
                a.target()
            }
            &&& b.indent_depth == a.indent_depth
            &&& b.start_of_line == a.start_of_line
            &&& b.suppress_comments_stack == a.suppress_comments_stack
            &&& b.heredoc_strings == a.heredoc_strings
            &&& b.formatting_context == a.formatting_context
            &&& b.insert_user_newlines == a.insert_user_newlines
            &&& b.spaces_after_last_newline == a.spaces_after_last_newline
            &&& b.scopes == a.scopes
            &&& b.inside_squiggly_heredoc == a.inside_squiggly_heredoc
            &&& crate::file_comments::opt_block_view(b.comments_to_insert) == if cs.len() > 0 && cs[0].0 <= line
                && !a.suppress_comments_stack@.last() {
                Some(
                    queued_comments(
                        crate::file_comments::opt_block_view(a.comments_to_insert),
                        extracted(cs, a.current_orig_line_number, line).0,
                        a.spaces_after_last_newline as nat,
                    ),
                )
            } else {
                crate::file_comments::opt_block_view(a.comments_to_insert)
            }
        }
    }

    /// Moves to `line_number`: tells the open breakable entries, takes out the
    /// comments up to it, and keeps a blank line the user left.
    pub fn on_line(&mut self, line_number: LineNumber)
        requires
            old(self).wf(),
            line_number < LineNumber::MAX,
        ensures
            Self::moved_to_line(*old(self), *final(self), line_number),
    {
        if line_number < self.current_orig_line_number {
            return;
        }
        self.stack_push_line_number(line_number);
        let ghost s1 = *self;
        let ghost cs = self.comments_hash.comments_view();
        let start = self.current_orig_line_number;
        let extracted_comments = self.comments_hash.extract_comments_to_line(start, line_number);
        match extracted_comments {
            Some((comments, last_comment_line)) => {
                proof {
                    assert(block_view(comments).0 == cs[0].0);
                }
                self.push_comments(comments);
                if last_comment_line > self.current_orig_line_number {
                    self.current_orig_line_number = last_comment_line;
                }
            },
            None => {
                proof {
                    assert(cs.skip(count_through(cs, line_number) as int) =~= cs) by {
                        if cs.len() > 0 {
                            assert(count_through(cs, line_number) == 0);
                        }
                    }
                }
            },
        }
        let ghost s2 = *self;
        assert(s2.target() == old(self).target());
        assert(s2.spec_prev_newline() == old(self).spec_prev_newline());
        if line_difference_requires_newline(line_number, self.current_orig_line_number) && self.insert_user_newlines {
            self.insert_extra_newline_at_last_newline();
        }
        self.current_orig_line_number = line_number;
        proof {
            let n = old(self).breakable_entry_stack@.len();
            assert forall|i: int| 0 <= i < n implies #[trigger] old(self).breakable_entry_stack@[i].after_line_frame(
                final(self).breakable_entry_stack@[i],
                line_number,
            ) by {
                assert(old(self).breakable_entry_stack@[i].after_line(s1.breakable_entry_stack@[i], line_number));
                assert(s2.breakable_entry_stack@[i] == s1.breakable_entry_stack@[i]);
                if i < n - 1 {
                    assert(final(self).breakable_entry_stack@[i] == s2.breakable_entry_stack@[i]);
                } else {
                    assert(s2.breakable_entry_stack@[i].same_frame(final(self).breakable_entry_stack@[i]));
                }
            }
            assert forall|i: int| 0 <= i < n - 1 implies #[trigger] final(self).breakable_entry_stack@[i].spec_tokens()
                == old(self).breakable_entry_stack@[i].spec_tokens() by {
                assert(old(self).breakable_entry_stack@[i].after_line(s1.breakable_entry_stack@[i], line_number));
                assert(s2.breakable_entry_stack@[i] == s1.breakable_entry_stack@[i]);
            }
            assert forall|i: int| 0 <= i < n implies (#[trigger] old(self).breakable_entry_stack@[i] is DelimiterExpr)
                == (final(self).breakable_entry_stack@[i] is DelimiterExpr) by {
                assert(old(self).breakable_entry_stack@[i].after_line_frame(final(self).breakable_entry_stack@[i], line_number));
            }
            lemma_stack_kinds(old(self).breakable_entry_stack@, final(self).breakable_entry_stack@);
        }
    }

    /// Moves to the line of the byte at `source_offset` (see `on_line`).
    pub fn at_offset(&mut self, source_offset: SourceOffset)
        requires
            old(self).wf(),
        ensures
            final(self).wf(),
            final(self).frame() == old(self).frame(),
            exists|line: LineNumber|
                #![trigger crate::file_comments::is_line_of_offset(old(self).comments_hash.newline_offsets@, source_offset, line as int)]
                crate::file_comments::is_line_of_offset(old(self).comments_hash.newline_offsets@, source_offset, line as int) && (
                line < old(self).current_orig_line_number ==> *final(self) == *old(self)) && (line >= old(
                self,
            ).current_orig_line_number ==> final(self).current_orig_line_number == line),
            Self::moved_to_line(
                *old(self),
                *final(self),
                (crate::file_comments::newlines_before(old(self).comments_hash.newline_offsets@, source_offset) + 1) as LineNumber,
            ),
    {
        let line = self.get_line_number_for_offset(source_offset);
        self.on_line(line);
    }

    /// A pending heredoc whose body would be a lone newline part cannot be
    /// rendered: the newline after it would find that part.
    pub open spec fn pending_heredocs_ok(&self) -> bool {
        forall|i: int|
            0 <= i < self.heredoc_strings@.len() ==> (self.inside_squiggly_heredoc && #[trigger] self.heredoc_strings@[i].kind
                != HeredocKind::Squiggly) || render_segments(
                self.heredoc_strings@[i].segments@,
                self.heredoc_strings@[i].kind == HeredocKind::Squiggly,
                self.heredoc_strings@[i].indent as nat,
            ) != seq![10u8]
    }

    /// Everything that shapes the layout is as in `old`: what may differ is
    /// the target's tokens, the pending heredocs and comments, and the spaces
    /// for comments.
    pub open spec fn layout_kept(&self, old: &ParserState) -> bool {
        &&& self.indent_depth == old.indent_depth
        &&& self.start_of_line == old.start_of_line
        &&& self.suppress_comments_stack == old.suppress_comments_stack
        &&& self.current_orig_line_number == old.current_orig_line_number
        &&& self.comments_hash == old.comments_hash
        &&& self.formatting_context == old.formatting_context
        &&& self.insert_user_newlines == old.insert_user_newlines
        &&& self.scopes == old.scopes
        &&& self.inside_squiggly_heredoc == old.inside_squiggly_heredoc
        &&& self.frames_kept(old)
    }

    /// The target once the pending comments are inserted after its last
    /// newline.
    pub open spec fn shifted_target(&self) -> Seq<AbstractLineToken> {
        let index = match self.spec_prev_newline() {
            Some(i) => i,
            None => 0,
        };
        match self.comments_to_insert {
            Some(c) => self.target().take(index) + comment_tokens(c.comments@, c.comments@.len()).map_values(
                |t: ConcreteLineToken| AbstractLineToken::ConcreteLineToken(t),
            ) + self.target().skip(index),
            None => self.target(),
        }
    }

    /// A hard newline after the pending comments, without the heredocs.
    fn newline_without_heredocs(&mut self)
        requires
            old(self).wf(),
        ensures
            final(self).wf(),
            final(self).layout_kept(old(self)),
            final(self).heredoc_strings == old(self).heredoc_strings,
            final(self).comments_to_insert is None,
            final(self).spaces_after_last_newline == old(self).spec_current_spaces(),
            final(self).target() == old(self).shifted_target().push(
                AbstractLineToken::ConcreteLineToken(ConcreteLineToken::HardNewLine),
            ),
    {
        self.shift_comments();
        self.push_concrete_token(ConcreteLineToken::HardNewLine);
        self.spaces_after_last_newline = self.current_spaces();
    }

    /// Emits a hard newline: the pending comments go before it, the pending
    /// heredocs after it.
    pub fn emit_newline(&mut self)
        requires
            old(self).wf(),
            old(self).pending_heredocs_ok(),
        ensures
            final(self).wf(),
            final(self).layout_kept(old(self)),
            final(self).heredoc_strings@.len() == 0,
            final(self).comments_to_insert is None,
            final(self).spaces_after_last_newline == old(self).spec_current_spaces(),
            old(self).heredoc_strings@.len() == 0 ==> final(self).target() == old(self).shifted_target().push(
                AbstractLineToken::ConcreteLineToken(ConcreteLineToken::HardNewLine),
            ),
            exists|e: Seq<AbstractLineToken>|
                #[trigger] heredocs_rendered(old(self).heredoc_strings@, e, true, old(self).inside_squiggly_heredoc, false)
                    && final(self).target() == old(self).shifted_target().push(nl_token()) + e,
    {
        self.newline_without_heredocs();
        let ghost mid = *self;
        self.render_heredocs(false);
        proof {
            let e = choose|e: Seq<AbstractLineToken>, k: int|
                heredocs_rendered(mid.heredoc_strings@, e, ends_in_newline(mid.target()), mid.inside_squiggly_heredoc, false)
                    && 0 <= k <= mid.target().len() + e.len() && self.target() == with_comments_at(
                    mid.target() + e,
                    k,
                    moved_comments(&mid, &*self),
                );
            let ee = e.0;
            lemma_with_no_comments(mid.target() + ee, e.1);
            assert(heredocs_rendered(old(self).heredoc_strings@, ee, true, old(self).inside_squiggly_heredoc, false));
        }
        self.spaces_after_last_newline = self.current_spaces();
    }

    /// Writes out the pending heredocs, in the order they were declared: each
    /// on a line of its own, its body (when not empty) and its closing
    /// symbol, and a newline after it unless `skip` (see `heredocs_rendered`).
    /// The first newline after a body takes the pending comments before it.
    #[verifier::rlimit(60)]
    #[verifier::spinoff_prover]
    pub fn render_heredocs(&mut self, skip: bool)
        requires
            old(self).wf(),
            old(self).pending_heredocs_ok(),
        ensures
            final(self).wf(),
            final(self).layout_kept(old(self)),
            final(self).heredoc_strings@.len() == 0,
            old(self).heredoc_strings@.len() == 0 ==> *final(self) == *old(self),
            old(self).comments_to_insert is None && !skip ==> final(self).comments_to_insert is None,
            final(self).comments_to_insert is None || final(self).comments_to_insert == old(self).comments_to_insert,
            exists|e: Seq<AbstractLineToken>, k: int|
                #[trigger] heredocs_rendered(
                    old(self).heredoc_strings@,
                    e,
                    ends_in_newline(old(self).target()),
                    old(self).inside_squiggly_heredoc,
                    skip,
                ) && 0 <= k <= old(self).target().len() + e.len() && final(self).target() == #[trigger] with_comments_at(
                    old(self).target() + e,
                    k,
                    moved_comments(old(self), final(self)),
                ),
    {
        let ghost t0 = self.target();
        let ghost nl0 = ends_in_newline(t0);
        let ghost raw_ctx = self.inside_squiggly_heredoc;
        let ghost cm = pending_comment_tokens(*self);
        let ghost old_comments = self.comments_to_insert;
        if self.heredoc_strings.len() == 0 {
            proof {
                let e = Seq::<AbstractLineToken>::empty();
                assert(heredocs_rendered(self.heredoc_strings@, e, nl0, raw_ctx, skip));
                assert(moved_comments(&*self, &*self) == e);
                assert(t0 + e =~= t0);
                lemma_with_no_comments(t0, 0);
                assert(self.target() == with_comments_at(t0 + e, 0, moved_comments(&*self, &*self)));
            }
            return;
        }
        let ghost hs = self.heredoc_strings@;
        let mut heredocs: Vec<HeredocString> = Vec::new();
        std::mem::swap(&mut heredocs, &mut self.heredoc_strings);
        let total = heredocs.len();
        let mut k: usize = 0;
        let ghost mut e: Seq<AbstractLineToken> = Seq::empty();
        let ghost mut kk: int = 0;
        proof {
            assert(hs.take(0) =~= Seq::<HeredocString>::empty());
            assert(t0 + e =~= t0);
            lemma_with_no_comments(t0, 0);
        }
        while heredocs.len() > 0
            invariant
                self.wf(),
                self.layout_kept(old(self)),
                self.heredoc_strings@.len() == 0,
                heredocs@ == hs.skip(k as int),
                k <= hs.len(),
                hs.len() == total,
                hs == old(self).heredoc_strings@,
                heredocs_ok(hs),
                forall|i: int|
                    0 <= i < hs.len() ==> (self.inside_squiggly_heredoc && #[trigger] hs[i].kind != HeredocKind::Squiggly)
                        || render_segments(hs[i].segments@, hs[i].kind == HeredocKind::Squiggly, hs[i].indent as nat)
                        != seq![10u8],
                old(self).comments_to_insert is None && !skip ==> self.comments_to_insert is None,
                t0 == old(self).target(),
                nl0 == ends_in_newline(t0),
                raw_ctx == old(self).inside_squiggly_heredoc,
                old_comments == old(self).comments_to_insert,
                cm == pending_comment_tokens(*old(self)),
                self.comments_to_insert is None || self.comments_to_insert == old_comments,
                heredocs_rendered(hs.take(k as int), e, nl0, raw_ctx, skip),
                0 <= kk <= t0.len() + e.len(),
                (old_comments is Some && self.comments_to_insert is None) ==> kk < t0.len() + e.len(),
                self.target() == with_comments_at(
                    t0 + e,
                    kk,
                    if old_comments is Some && self.comments_to_insert is None {
                        cm
                    } else {
                        Seq::empty()
                    },
                ),
            decreases heredocs@.len(),
        {
            let next_heredoc = heredocs.remove(0);
            assert(hs.skip(k as int).remove(0) =~= hs.skip(k + 1));
            assert(next_heredoc == hs[k as int]);
            let ghost h = next_heredoc;
            proof {
                let a = t0 + e;
                if old_comments is Some && self.comments_to_insert is None {
                    lemma_with_comments_last(a, kk, cm);
                } else {
                    lemma_with_no_comments(a, kk);
                }
                if k > 0 {
                    lemma_heredocs_rendered_last(hs.take(k as int), e, nl0, raw_ctx, skip);
                    assert(a.last() == e.last());
                } else {
                    assert(a =~= t0);
                }
                assert(ends_in_newline(self.target()) == if k == 0 {
                    nl0
                } else {
                    !skip
                });
            }
            let ghost nl = ends_in_newline(self.target());
            let rendered = self.render_one_heredoc(
                next_heredoc,
                skip,
                Ghost(t0 + e),
                Ghost(kk),
                Ghost(cm),
                Ghost(old_comments),
            );
            proof {
                let w = rendered@.0;
                let k2 = rendered@.1;
                let e2 = e + w;
                assert(hs.take(k + 1).drop_last() =~= hs.take(k as int));
                assert(hs.take(k + 1).last() == h);
                assert(e2.take(e2.len() - w.len()) =~= e);
                assert(e2.skip(e2.len() - w.len()) =~= w);
                assert(t0 + e + w =~= t0 + e2);
                e = e2;
                kk = k2;
            }
            k = k + 1;
        }
        proof {
            assert(hs.take(total as int) =~= hs);
            assert(heredocs_rendered(old(self).heredoc_strings@, e, nl0, raw_ctx, skip));
            assert(self.target() == with_comments_at(t0 + e, kk, moved_comments(old(self), &*self)));
        }
    }

    /// Renders one pending heredoc (see `heredoc_rendered`) while the target is
    /// `a` with the comments `cm` inserted at `k` once the comments
    /// `old_comments` that were pending have been inserted; gives the tokens
    /// appended and where the comments stand then.
    #[verifier::rlimit(100)]
    #[verifier::spinoff_prover]
    fn render_one_heredoc(
        &mut self,
        h: HeredocString,
        skip: bool,
        Ghost(a): Ghost<Seq<AbstractLineToken>>,
        Ghost(k): Ghost<int>,
        Ghost(cm): Ghost<Seq<AbstractLineToken>>,
        Ghost(old_comments): Ghost<Option<CommentBlock>>,
    ) -> (r: Ghost<(Seq<AbstractLineToken>, int)>)
        requires
            old(self).wf(),
            heredocs_ok(seq![h]),
            (old(self).inside_squiggly_heredoc && h.kind != HeredocKind::Squiggly) || render_segments(
                h.segments@,
                h.kind == HeredocKind::Squiggly,
                h.indent as nat,
            ) != seq![10u8],
            old(self).comments_to_insert is None || old(self).comments_to_insert == old_comments,
            old_comments matches Some(c) ==> cm == comment_tokens(c.comments@, c.comments@.len()).map_values(
                |t: ConcreteLineToken| AbstractLineToken::ConcreteLineToken(t),
            ),
            0 <= k <= a.len(),
            (old_comments is Some && old(self).comments_to_insert is None) ==> k < a.len(),
            old(self).target() == with_comments_at(
                a,
                k,
                if old_comments is Some && old(self).comments_to_insert is None {
                    cm
                } else {
                    Seq::empty()
                },
            ),
        ensures
            final(self).wf(),
            final(self).layout_kept(old(self)),
            final(self).heredoc_strings == old(self).heredoc_strings,
            final(self).comments_to_insert is None || final(self).comments_to_insert == old_comments,
            old(self).comments_to_insert is None && !skip ==> final(self).comments_to_insert is None,
            heredoc_rendered(h, r@.0, ends_in_newline(old(self).target()), old(self).inside_squiggly_heredoc, skip),
            0 <= r@.1 <= a.len() + r@.0.len(),
            (old_comments is Some && final(self).comments_to_insert is None) ==> r@.1 < a.len() + r@.0.len(),
            final(self).target() == with_comments_at(
                a + r@.0,
                r@.1,
                if old_comments is Some && final(self).comments_to_insert is None {
                    cm
                } else {
                    Seq::empty()
                },
            ),
    {
        assert(heredocs_ok(seq![h]) ==> seq![h][0] == h);
        let ghost nl = ends_in_newline(self.target());
        let ghost raw_ctx = self.inside_squiggly_heredoc;
        let ghost mut w: Seq<AbstractLineToken> = Seq::empty();
        let ghost mut kk: int = k;
        proof {
            assert(a + w =~= a);
        }
        let want_newline = !self.last_token_is_a_newline();
        if want_newline {
            let ghost c = if old_comments is Some && self.comments_to_insert is None { cm } else { Seq::empty() };
            self.track_push(ConcreteLineToken::HardNewLine, Ghost(a + w), Ghost(kk), Ghost(c));
            proof {
                assert((a + w).push(nl_token()) =~= a + w.push(nl_token()));
                w = w.push(nl_token());
            }
        }
        let kind = h.kind;
        let symbol = h.closing_symbol();
        let space_count = h.indent;
        let string_contents = h.render_as_bytes();
        let emit_as_raw = self.inside_squiggly_heredoc && !kind.is_squiggly();
        if string_contents.len() > 0 {
            let ghost c = if old_comments is Some && self.comments_to_insert is None { cm } else { Seq::empty() };
            if emit_as_raw {
                let ghost t = ConcreteLineToken::RawHeredocContent { content: string_contents };
                self.track_push(ConcreteLineToken::RawHeredocContent { content: string_contents }, Ghost(a + w), Ghost(kk), Ghost(c));
                proof {
                    assert((a + w).push(AbstractLineToken::ConcreteLineToken(t)) =~= a + w.push(AbstractLineToken::ConcreteLineToken(t)));
                    w = w.push(AbstractLineToken::ConcreteLineToken(t));
                }
            } else {
                let ghost t = ConcreteLineToken::DirectPart { part: string_contents };
                self.track_push(ConcreteLineToken::DirectPart { part: string_contents }, Ghost(a + w), Ghost(kk), Ghost(c));
                proof {
                    assert((a + w).push(AbstractLineToken::ConcreteLineToken(t)) =~= a + w.push(AbstractLineToken::ConcreteLineToken(t)));
                    w = w.push(AbstractLineToken::ConcreteLineToken(t));
                }
            }
            let k2 = self.newline_tracked(Ghost(a + w), Ghost(kk), Ghost(cm), Ghost(old_comments));
            proof {
                assert((a + w).push(nl_token()) =~= a + w.push(nl_token()));
                w = w.push(nl_token());
                kk = k2@;
            }
        }
        let ghost c = if old_comments is Some && self.comments_to_insert is None { cm } else { Seq::empty() };
        if emit_as_raw {
            let close_content = if kind.is_bare() {
                symbol
            } else {
                let mut content = crate::util::indent_vec(space_count as usize);
                let mut sym = symbol;
                content.append(&mut sym);
                content
            };
            let ghost t = ConcreteLineToken::RawHeredocContent { content: close_content };
            self.track_push(ConcreteLineToken::RawHeredocContent { content: close_content }, Ghost(a + w), Ghost(kk), Ghost(c));
            proof {
                assert((a + w).push(AbstractLineToken::ConcreteLineToken(t)) =~= a + w.push(AbstractLineToken::ConcreteLineToken(t)));
                w = w.push(AbstractLineToken::ConcreteLineToken(t));
            }
        } else {
            if !kind.is_bare() {
                let ghost t = ConcreteLineToken::Indent { depth: space_count };
                self.track_push(ConcreteLineToken::Indent { depth: space_count }, Ghost(a + w), Ghost(kk), Ghost(c));
                proof {
                    assert((a + w).push(AbstractLineToken::ConcreteLineToken(t)) =~= a + w.push(AbstractLineToken::ConcreteLineToken(t)));
                    w = w.push(AbstractLineToken::ConcreteLineToken(t));
                }
            }
            let ghost t = ConcreteLineToken::HeredocClose { symbol };
            self.track_push(ConcreteLineToken::HeredocClose { symbol }, Ghost(a + w), Ghost(kk), Ghost(c));
            proof {
                assert((a + w).push(AbstractLineToken::ConcreteLineToken(t)) =~= a + w.push(AbstractLineToken::ConcreteLineToken(t)));
                w = w.push(AbstractLineToken::ConcreteLineToken(t));
            }
        }
        if !skip {
            let k2 = self.newline_tracked(Ghost(a + w), Ghost(kk), Ghost(cm), Ghost(old_comments));
            proof {
                assert((a + w).push(nl_token()) =~= a + w.push(nl_token()));
                w = w.push(nl_token());
                kk = k2@;
            }
        }
        Ghost((w, kk))
    }

    /// A hard newline after the pending comments, while the target is `a`
    /// with the comments `cm` inserted at `k` once the comments
    /// `old_comments` that were pending have been inserted; gives where the
    /// comments stand then.
    fn newline_tracked(
        &mut self,
        Ghost(a): Ghost<Seq<AbstractLineToken>>,
        Ghost(k): Ghost<int>,
        Ghost(cm): Ghost<Seq<AbstractLineToken>>,
        Ghost(old_comments): Ghost<Option<CommentBlock>>,
    ) -> (r: Ghost<int>)
        requires
            old(self).wf(),
            old(self).comments_to_insert is None || old(self).comments_to_insert == old_comments,
            old_comments matches Some(c) ==> cm == comment_tokens(c.comments@, c.comments@.len()).map_values(
                |t: ConcreteLineToken| AbstractLineToken::ConcreteLineToken(t),
            ),
            0 <= k <= a.len(),
            old(self).target() == with_comments_at(
                a,
                k,
                if old_comments is Some && old(self).comments_to_insert is None {
                    cm
                } else {
                    Seq::empty()
                },
            ),
        ensures
            final(self).wf(),
            final(self).layout_kept(old(self)),
            final(self).heredoc_strings == old(self).heredoc_strings,
            final(self).comments_to_insert is None,
            0 <= r@ < a.len() + 1,
            (old_comments is Some && old(self).comments_to_insert is None) ==> r@ == k,
            final(self).target() == with_comments_at(
                a.push(nl_token()),
                r@,
                if old_comments is Some {
                    cm
                } else {
                    Seq::empty()
                },
            ),
    {
        let ghost pre = *self;
        let ghost sh = old_comments is Some && self.comments_to_insert is None;
        proof {
            pre.lemma_shifted_len();
        }
        self.newline_without_heredocs();
        let ghost mut kk = k;
        proof {
            if pre.comments_to_insert is None {
                assert(pre.shifted_target() == pre.target());
                if !sh {
                    lemma_with_no_comments(a, k);
                    lemma_with_no_comments(a.push(nl_token()), k);
                }
                lemma_with_comments_push(a, k, if sh { cm } else { Seq::empty() }, nl_token());
            } else {
                lemma_with_no_comments(a, k);
                let idx = match pre.spec_prev_newline() {
                    Some(i) => i,
                    None => 0,
                };
                assert(pre.shifted_target() == with_comments_at(a, idx, cm));
                lemma_with_comments_push(a, idx, cm, nl_token());
                kk = idx;
            }
        }
        Ghost(kk)
    }

    /// Pushes a concrete token while the target is `with_comments_at(a, k, c)`.
    fn track_push(&mut self, t: ConcreteLineToken, Ghost(a): Ghost<Seq<AbstractLineToken>>, Ghost(k): Ghost<int>, Ghost(c): Ghost<Seq<AbstractLineToken>>)
        requires
            old(self).wf(),
            !t.is_lone_newline_part(),
            0 <= k <= a.len(),
            old(self).target() == with_comments_at(a, k, c),
        ensures
            final(self).wf(),
            final(self).target() == with_comments_at(a.push(AbstractLineToken::ConcreteLineToken(t)), k, c),
            final(self).same_but_target(old(self)),
    {
        let ghost tt = t;
        self.push_concrete_token(t);
        proof {
            lemma_with_comments_push(a, k, c, AbstractLineToken::ConcreteLineToken(tt));
        }
    }

    /// Emits `end` on a line of its own.
    pub fn emit_end(&mut self)
        requires
            old(self).wf(),
            old(self).pending_heredocs_ok(),
        ensures
            final(self).wf(),
            final(self).layout_kept(old(self)),
            final(self).target().len() > 0,
            final(self).target().last() == AbstractLineToken::ConcreteLineToken(ConcreteLineToken::End),
    {
        if !self.last_token_is_a_newline() {
            self.emit_newline();
        }
        if self.at_start_of_line() {
            self.emit_indent();
        }
        self.push_concrete_token(ConcreteLineToken::End);
    }

    /// Emits a newline that disappears when the entry is laid out on one line
    /// (nothing when the target already ends in a newline); it carries the
    /// pending heredocs.
    pub fn emit_collapsing_newline(&mut self)
        requires
            old(self).wf(),
            old(self).breakable_entry_stack@.len() > 0 || (old(self).target().len() > 0
                && old(self).target().last().spec_is_newline()),
        ensures
            final(self).wf(),
            final(self).layout_kept(old(self)),
            final(self).spaces_after_last_newline == old(self).spec_current_spaces(),
            final(self).comments_to_insert == old(self).comments_to_insert,
            old(self).target().len() > 0 && old(self).target().last().spec_is_newline() ==> final(self).target()
                == old(self).target() && final(self).heredoc_strings == old(self).heredoc_strings,
            !(old(self).target().len() > 0 && old(self).target().last().spec_is_newline()) ==> {
                &&& pushed_one(old(self).target(), final(self).target())
                &&& final(self).target().last() is CollapsingNewLine
                &&& final(self).heredoc_strings@.len() == 0
                &&& old(self).heredoc_strings@.len() == 0 ==> final(self).target().last()
                    == AbstractLineToken::CollapsingNewLine(None)
                &&& old(self).heredoc_strings@.len() > 0 ==> (final(self).target().last() matches AbstractLineToken::CollapsingNewLine(
                    Some(v),
                ) && v@ == old(self).heredoc_strings@.reverse())
            },
    {
        if !self.last_token_is_a_newline() {
            let hd = self.gather_heredocs();
            let ghost mid = *self;
            self.push_abstract_token(AbstractLineToken::CollapsingNewLine(hd));
            proof {
                assert(self.target().take(old(self).target().len() as int) =~= old(self).target());
            }
        }
        self.spaces_after_last_newline = self.current_spaces();
    }

    /// Emits a newline that only shows when the entry is laid out over
    /// several lines, after the pending comments; it carries the pending
    /// heredocs.
    pub fn emit_soft_newline(&mut self)
        requires
            old(self).wf(),
            old(self).breakable_entry_stack@.len() > 0,
        ensures
            final(self).wf(),
            final(self).layout_kept(old(self)),
            final(self).spaces_after_last_newline == old(self).spec_current_spaces(),
            final(self).comments_to_insert is None,
            final(self).heredoc_strings@.len() == 0,
            pushed_one(old(self).shifted_target(), final(self).target()),
            final(self).target().last() is SoftNewline,
            old(self).heredoc_strings@.len() == 0 ==> final(self).target().last() == AbstractLineToken::SoftNewline(
                None,
            ),
            old(self).heredoc_strings@.len() > 0 ==> (final(self).target().last() matches AbstractLineToken::SoftNewline(
                Some(v),
            ) && v@ == old(self).heredoc_strings@.reverse()),
            final(self).target().len() > old(self).target().len(),
    {
        proof {
            old(self).lemma_shifted_len();
        }
        self.shift_comments();
        let hd = self.gather_heredocs();
        let ghost mid = *self;
        self.push_abstract_token(AbstractLineToken::SoftNewline(hd));
        proof {
            assert(self.target().take(mid.target().len() as int) =~= mid.target());
        }
        self.spaces_after_last_newline = self.current_spaces();
    }

    /// Writes the comment block at the start of the file, or moves to line 1
    /// when there is none.
    pub fn flush_start_of_file_comments(&mut self)
        requires
            old(self).wf(),
        ensures
            final(self).wf(),
            old(self).comments_hash.start_of_file_contiguous_comment_lines matches Some(c) ==> {
                &&& final(self).target() == old(self).target() + comment_tokens(c.comments@, c.comments@.len()).map_values(
                    |t: ConcreteLineToken| AbstractLineToken::ConcreteLineToken(t),
                )
                &&& final(self).current_orig_line_number == crate::comment_block::comments_line_count(c.comments@)
            },
            old(self).comments_hash.start_of_file_contiguous_comment_lines is None ==> final(self).current_orig_line_number
                == if old(self).current_orig_line_number <= 1 {
                1
            } else {
                old(self).current_orig_line_number
            },
    {
        let start = self.comments_hash.take_start_of_file_contiguous_comment_lines();
        match start {
            None => {
                self.on_line(1);
            },
            Some(comments) => {
                let line_count = comments.line_count();
                let ghost cs = comments.comments@;
                let mut tokens = comments.into_line_tokens();
                let ghost toks = tokens@;
                proof {
                    crate::comment_block::lemma_comment_tokens_plain(cs, cs.len());
                }
                let ghost base = self.target();
                let total = tokens.len();
                let mut k: usize = 0;
                while tokens.len() > 0
                    invariant
                        self.wf(),
                        tokens@ == toks.skip(k as int),
                        k <= toks.len(),
                        toks.len() == total,
                        toks == comment_tokens(cs, cs.len()),
                        forall|j: int| 0 <= j < toks.len() ==> (#[trigger] toks[j] is Comment || toks[j] is HardNewLine),
                        self.target() == base + toks.take(k as int).map_values(
                            |t: ConcreteLineToken| AbstractLineToken::ConcreteLineToken(t),
                        ),
                    decreases tokens@.len(),
                {
                    let token = tokens.remove(0);
                    assert(toks.skip(k as int).remove(0) =~= toks.skip(k + 1));
                    assert(token == toks[k as int]);
                    assert(token is Comment || token is HardNewLine);
                    self.push_concrete_token(token);
                    assert(toks.take(k + 1).map_values(|t: ConcreteLineToken| AbstractLineToken::ConcreteLineToken(t))
                        =~= toks.take(k as int).map_values(|t: ConcreteLineToken| AbstractLineToken::ConcreteLineToken(t)).push(
                        AbstractLineToken::ConcreteLineToken(token),
                    ));
                    k = k + 1;
                }
                assert(toks.take(k as int) =~= toks);
                self.current_orig_line_number = line_count as LineNumber;
            },
        }
    }

    /// Whether winding goes on from line `ln`: up to the line before `max`
    /// when one is given, otherwise while the next line is a comment or blank
    /// and still in the file.
    pub open spec fn keeps_winding(&self, ln: LineNumber, max: Option<LineNumber>) -> bool {
        ||| max == Some((ln + 1) as LineNumber)
        ||| ln + 1 < self.comments_hash.last_lineno && (comment_lines_of(self).contains((ln + 1) as LineNumber)
            || !self.comments_hash.lines_with_ruby@.contains((ln + 1) as LineNumber)) && match max {
            Some(m) => ln + 1 < m,
            None => true,
        }
    }

    fn should_iter(&self, ln: LineNumber, max: Option<LineNumber>) -> (r: bool)
        requires
            self.wf(),
            ln < LineNumber::MAX,
        ensures
            r == self.keeps_winding(ln, max),
    {
        if let Some(m) = max {
            if ln + 1 == m {
                return true;
            }
        }
        let next = ln + 1;
        self.comments_hash.still_in_file(next) && (self.comments_hash.has_line(next) || self.comments_hash.is_empty_line(
            next,
        )) && match max {
            Some(m) => next < m,
            None => true,
        }
    }

    /// Moves forward line by line while the lines hold only comments or are
    /// blank (see `keeps_winding`), taking their comments along; a blank line
    /// between comments is kept as an empty comment line.
    pub fn wind_dumping_comments(&mut self, maybe_max_line_number: Option<LineNumber>)
        requires
            old(self).wf(),
            maybe_max_line_number matches Some(m) ==> m < LineNumber::MAX,
            (maybe_max_line_number matches Some(m) && m <= old(self).current_orig_line_number)
                || old(self).current_orig_line_number + 1 < LineNumber::MAX,
        ensures
            final(self).wf(),
            (maybe_max_line_number matches Some(m) && m <= old(self).current_orig_line_number) ==> *final(self)
                == *old(self),
            !(maybe_max_line_number matches Some(m) && m <= old(self).current_orig_line_number) ==> {
                &&& final(self).current_orig_line_number > old(self).current_orig_line_number
                &&& !final(self).keeps_winding(final(self).current_orig_line_number, maybe_max_line_number)
                &&& exists|s1: ParserState, n: nat|
                    #![trigger Self::moved_to_line(*old(self), s1, (old(self).current_orig_line_number + 1) as LineNumber), winds(s1, *final(self), maybe_max_line_number, n)]
                    Self::moved_to_line(*old(self), s1, (old(self).current_orig_line_number + 1) as LineNumber)
                        && winds(s1, *final(self), maybe_max_line_number, n)
            },
            final(self).frame() == old(self).frame(),
    {
        if let Some(ln) = maybe_max_line_number {
            if ln <= self.current_orig_line_number {
                return;
            }
        }
        let next = self.current_orig_line_number + 1;
        self.on_line(next);
        let ghost s1 = *self;
        let ghost mut n: nat = 0;
        let ghost last = self.comments_hash.last_lineno;
        while self.current_orig_line_number < LineNumber::MAX && self.should_iter(
            self.current_orig_line_number,
            maybe_max_line_number,
        )
            invariant
                self.wf(),
                self.current_orig_line_number > old(self).current_orig_line_number,
                self.comments_hash.last_lineno == last,
                maybe_max_line_number matches Some(m) ==> m < LineNumber::MAX && self.current_orig_line_number
                    <= m,
                self.frame() == old(self).frame(),
                winds(s1, *self, maybe_max_line_number, n),
                Self::moved_to_line(*old(self), s1, (old(self).current_orig_line_number + 1) as LineNumber),
            decreases (match maybe_max_line_number {
                Some(m) => m as int,
                None => last as int,
            }) - self.current_orig_line_number,
        {
            let ghost m0 = *self;
            let next = self.current_orig_line_number + 1;
            if !self.comments_hash.has_line(next) && self.comments_hash.is_empty_line(next) {
                if let Some(comments) = self.comments_to_insert.as_mut() {
                    if comments.line_count() > 0 && comments.span.end < LineNumber::MAX {
                        let ghost c0 = *comments;
                        comments.add_line(Vec::new());
                        proof {
                            let f = |c: Vec<u8>| c@;
                            assert(comments.comments@.map_values(f) =~= c0.comments@.map_values(f).push(Seq::empty()));
                        }
                    }
                }
            }
            let ghost mid = *self;
            assert(blank_line_kept(m0, mid));
            self.on_line(next);
            proof {
                assert(wind_step(m0, *self));
                let n1: nat = n + 1;
                lemma_winds_step(s1, m0, *self, maybe_max_line_number, n);
                n = n1;
            }
        }
        proof {
            if self.current_orig_line_number == LineNumber::MAX {
                assert(!self.keeps_winding(self.current_orig_line_number, maybe_max_line_number));
            }
        }
    }

    pub fn wind_dumping_comments_until_line(&mut self, line_number: LineNumber)
        requires
            old(self).wf(),
            line_number < LineNumber::MAX,
            line_number <= old(self).current_orig_line_number || old(self).current_orig_line_number + 1
                < LineNumber::MAX,
        ensures
            final(self).wf(),
            line_number <= old(self).current_orig_line_number ==> *final(self) == *old(self),
            line_number > old(self).current_orig_line_number ==> {
                &&& final(self).current_orig_line_number > old(self).current_orig_line_number
                &&& !final(self).keeps_winding(final(self).current_orig_line_number, Some(line_number))
                &&& exists|s1: ParserState, n: nat|
                    #![trigger Self::moved_to_line(*old(self), s1, (old(self).current_orig_line_number + 1) as LineNumber), winds(s1, *final(self), Some(line_number), n)]
                    Self::moved_to_line(*old(self), s1, (old(self).current_orig_line_number + 1) as LineNumber)
                        && winds(s1, *final(self), Some(line_number), n)
            },
            final(self).frame() == old(self).frame(),
    {
        self.wind_dumping_comments(Some(line_number))
    }

    /// Winds up to the line of the byte at `source_offset`.
    pub fn wind_dumping_comments_until_offset(&mut self, source_offset: SourceOffset)
        requires
            old(self).wf(),
            old(self).current_orig_line_number + 1 < LineNumber::MAX,
        ensures
            final(self).wf(),
            final(self).frame() == old(self).frame(),
            exists|line: LineNumber|
                #![trigger crate::file_comments::is_line_of_offset(old(self).comments_hash.newline_offsets@, source_offset, line as int)]
                crate::file_comments::is_line_of_offset(old(self).comments_hash.newline_offsets@, source_offset, line as int) && (
                line <= old(self).current_orig_line_number ==> *final(self) == *old(self)) && (line > old(
                self,
            ).current_orig_line_number ==> !final(self).keeps_winding(final(self).current_orig_line_number, Some(line))),
    {
        let line = self.get_line_number_for_offset(source_offset);
        self.wind_dumping_comments_until_line(line)
    }

    /// Lets `f` lay out a multi-line array, with the comments before it
    /// shifted in first; when `f` moved past the current line and the next
    /// line is blank or a comment, winds up to `end_line` and puts the
    /// comments at the end of the array.
    pub fn magic_handle_comments_for_multiline_arrays<F>(&mut self, end_line: Option<LineNumber>, f: F)
        where
            F: FnOnce(&mut ParserState),
        requires
            old(self).wf(),
            end_line matches Some(e) ==> e < LineNumber::MAX,
            forall|ps: &mut ParserState| ps.wf() ==> #[trigger] f.requires((ps,)),
            forall|ps: &mut ParserState, u: ()| #[trigger] f.ensures((ps,), u) ==> final(ps).wf()
                && final(ps).frame() == ps.frame(),
            forall|ps: &mut ParserState, u: ()| #[trigger] f.ensures((ps,), u) ==> final(ps).current_orig_line_number
                + 1 < LineNumber::MAX,
        ensures
            final(self).wf(),
            final(self).frame() == old(self).frame(),
            exists|ps: &mut ParserState|
                #[trigger] f.ensures((ps,), ()) && ps.comments_to_insert is None && ps.target() == old(
                    self,
                ).shifted_target() && ps.same_but_target(&ParserState { comments_to_insert: None, ..*old(self) })
                    && ({
                    let mid = ParserState { spaces_after_last_newline: final(ps).spec_current_spaces(), ..*final(ps) };
                    &&& final(ps).current_orig_line_number <= old(self).current_orig_line_number ==> *final(self)
                        == mid
                    &&& final(ps).current_orig_line_number > old(self).current_orig_line_number ==> {
                        &&& final(self).comments_to_insert is None
                        &&& final(self).current_orig_line_number >= final(ps).current_orig_line_number
                        &&& final(ps).comments_hash.lines_with_ruby@.contains(
                            (final(ps).current_orig_line_number + 1) as LineNumber,
                        ) ==> final(self).target() == mid.shifted_target() && final(self).same_but_target(
                            &ParserState { comments_to_insert: None, ..mid },
                        )
                        &&& !final(ps).comments_hash.lines_with_ruby@.contains(
                            (final(ps).current_orig_line_number + 1) as LineNumber,
                        ) ==> exists|w: ParserState, w2: ParserState|
                            #![trigger wound_until(mid, w, end_line), comments_at_array_end(w, w2, *final(self))]
                            wound_until(mid, w, end_line) && comments_at_array_end(w, w2, *final(self))
                    }
                }),
    {
        let current_line_number = self.current_orig_line_number;
        self.shift_comments();
        f(self);
        self.reset_space_count();
        let new_line_number = self.current_orig_line_number;
        if new_line_number > current_line_number {
            if self.comments_hash.is_empty_line(new_line_number + 1) {
                let ghost mid0 = *self;
                if let Some(end_line) = end_line {
                    self.wind_dumping_comments_until_line(end_line);
                }
                let ghost w = *self;
                assert(wound_until(mid0, w, end_line));
                let has_comments = match &self.comments_to_insert {
                    Some(comments) => comments.has_comments(),
                    None => false,
                };
                if has_comments {
                    self.push_concrete_token(ConcreteLineToken::HardNewLine);
                }
                let ghost w2 = *self;
                let n = self.breakable_entry_stack.len();
                let index = if n > 0 {
                    self.breakable_entry_stack[n - 1].len()
                } else {
                    match self.index_of_prev_hard_newline() {
                        Some(i) => i,
                        None => 0,
                    }
                };
                self.shift_comments_at_index(index);
                proof {
                    if w2.breakable_entry_stack@.len() > 0 {
                        assert(w2.target() == w2.breakable_entry_stack@.last().spec_tokens());
                    }
                    let idx = if w2.breakable_entry_stack@.len() > 0 {
                        w2.target().len() as int
                    } else {
                        match w2.spec_prev_newline() {
                            Some(i) => i,
                            None => 0,
                        }
                    };
                    assert(index == idx);
                    if w2.comments_to_insert is None {
                        w2.lemma_shifted_len();
                        lemma_with_no_comments(w2.target(), idx);
                    }
                    assert(self.target() == with_comments_at(w2.target(), idx, pending_comment_tokens(w2)));
                    assert(comments_at_array_end(w, w2, *self));
                }
            } else {
                self.shift_comments();
            }
        }
    }

    /// A fresh state for a heredoc's body: no indentation, but the comments,
    /// the line-start stack and the current line of `ps`.
    pub fn new_with_reset_indentation(ps: &ParserState) -> (r: ParserState)
        requires
            ps.wf(),
        ensures
            r.wf(),
            r.indent_depth.depth == 0,
            r.comments_hash.model() == ps.comments_hash.model(),
            r.comments_hash.lines_with_ruby@ == ps.comments_hash.lines_with_ruby@,
            r.comments_hash.last_lineno == ps.comments_hash.last_lineno,
            r.start_of_line@ == ps.start_of_line@,
            r.current_orig_line_number == ps.current_orig_line_number,
            r.render_queue.tokens@.len() == 0,
            r.breakable_entry_stack@.len() == 0,
            r.heredoc_strings@.len() == 0,
            r.comments_to_insert is None,
            r.formatting_context@ == seq![FormattingContext::Main],
            !r.inside_squiggly_heredoc,
    {
        let fc = ps.comments_hash.duplicate();
        proof {
            let a = crate::file_comments::comment_lines(fc.other_comments@);
            let b = crate::file_comments::comment_lines(ps.comments_hash.other_comments@);
            let v1 = fc.comments_view();
            let v2 = ps.comments_hash.comments_view();
            assert(v1 == v2);
            assert(v1.len() == fc.other_comments@.len());
            assert(v2.len() == ps.comments_hash.other_comments@.len());
            assert forall|i: int| 0 <= i < a.len() implies a[i] == b[i] by {
                assert(v1[i] == v2[i]);
            }
            assert(a =~= b);
        }
        let mut next_ps = ParserState::new(fc);
        let mut start_of_line: Vec<bool> = Vec::new();
        let mut i: usize = 0;
        while i < ps.start_of_line.len()
            invariant
                i <= ps.start_of_line@.len(),
                start_of_line@ == ps.start_of_line@.take(i as int),
            decreases ps.start_of_line@.len() - i,
        {
            start_of_line.push(ps.start_of_line[i]);
            assert(start_of_line@ =~= ps.start_of_line@.take(i + 1));
            i = i + 1;
        }
        assert(start_of_line@ =~= ps.start_of_line@);
        next_ps.start_of_line = start_of_line;
        next_ps.current_orig_line_number = ps.current_orig_line_number;
        next_ps
    }

    /// Lays out the render queue and splits the resulting bytes into normal
    /// segments and the raw content of nested heredocs.
    pub fn render_to_segments(self) -> (r: Vec<HeredocSegment>)
        requires
            self.wf(),
        ensures
            exists|toks: Seq<ConcreteLineToken>|
                crate::render_queue_writer::laid_out(self.render_queue.tokens@, toks) && #[trigger] segment_views(r@)
                    == segments_of(toks),
    {
        let q = self.consume_to_render_queue();
        let rqw = RenderQueueWriter::new(q);
        proof {
            assert forall|k: int| 0 <= k < rqw.tokens@.len() implies crate::render_targets::cdeep_ok(
                #[trigger] rqw.tokens@[k],
            ) by {
                assert(queue_view(rqw.tokens@)[k] == abstract_of(rqw.tokens@[k]));
            }
        }
        let final_tokens = rqw.into_tokens();
        let ghost toks = final_tokens@;
        let mut rest = final_tokens;
        let mut segments: Vec<HeredocSegment> = Vec::new();
        let mut current_normal: Vec<u8> = Vec::new();
        let total = rest.len();
        let mut k: usize = 0;
        while rest.len() > 0
            invariant
                rest@ == toks.skip(k as int),
                k <= toks.len(),
                toks.len() == total,
                (segment_views(segments@), current_normal@) == segment_scan(toks.take(k as int)),
            decreases rest@.len(),
        {
            let token = rest.remove(0);
            assert(toks.skip(k as int).remove(0) =~= toks.skip(k + 1));
            assert(toks.take(k + 1).drop_last() =~= toks.take(k as int));
            assert(token == toks.take(k + 1).last());
            let ghost before = segments@;
            match token {
                ConcreteLineToken::RawHeredocContent { content } => {
                    Self::flush_normal(&mut current_normal, &mut segments);
                    segments.push(HeredocSegment::Raw(content));
                    assert(segment_views(segments@) =~= segment_views(before).push((true, content@)) || segment_views(
                        segments@,
                    ) =~= segment_views(before).push((false, segment_scan(toks.take(k as int)).1)).push(
                        (true, content@),
                    ));
                },
                other => {
                    let bytes = other.into_ruby();
                    let mut j: usize = 0;
                    let ghost start = current_normal@;
                    while j < bytes.len()
                        invariant
                            j <= bytes@.len(),
                            current_normal@ == start + bytes@.take(j as int),
                        decreases bytes@.len() - j,
                    {
                        current_normal.push(bytes[j]);
                        assert(bytes@.take(j + 1) =~= bytes@.take(j as int).push(bytes@[j as int]));
                        j = j + 1;
                    }
                    assert(bytes@.take(j as int) =~= bytes@);
                },
            }
            k = k + 1;
        }
        assert(toks.take(k as int) =~= toks);
        Self::flush_normal(&mut current_normal, &mut segments);
        assert(segment_views(segments@) == segments_of(toks));
        segments
    }

    fn flush_normal(current: &mut Vec<u8>, segments: &mut Vec<HeredocSegment>)
        ensures
            final(current)@.len() == 0,
            old(current)@.len() == 0 ==> final(segments)@ == old(segments)@,
            old(current)@.len() > 0 ==> segment_views(final(segments)@) == segment_views(old(segments)@).push(
                (false, old(current)@),
            ),
    {
        if current.len() > 0 {
            let mut taken: Vec<u8> = Vec::new();
            std::mem::swap(&mut taken, current);
            let ghost t = taken@;
            let ghost before = segments@;
            segments.push(HeredocSegment::Normal(taken));
            assert(segment_views(segments@) =~= segment_views(before).push((false, t)));
        }
    }

    /// Lays out the render queue and appends the resulting bytes to `writer`.
    pub fn write(self, writer: &mut Vec<u8>)
        requires
            self.wf(),
        ensures
            final(writer)@ == old(writer)@ + crate::render_queue_writer::ruby_of(
                crate::render_queue_writer::trim_final(crate::render_queue_writer::layout_of(self.render_queue.tokens@)),
            ),
            exists|toks: Seq<ConcreteLineToken>|
                crate::render_queue_writer::laid_out(self.render_queue.tokens@, toks) && final(writer)@ == old(writer)@
                    + crate::render_queue_writer::ruby_of(#[trigger] crate::render_queue_writer::trim_final(toks)),
    {
        let q = self.consume_to_render_queue();
        let rqw = RenderQueueWriter::new(q);
        proof {
            assert forall|k: int| 0 <= k < rqw.tokens@.len() implies crate::render_targets::cdeep_ok(
                #[trigger] rqw.tokens@[k],
            ) by {
                assert(queue_view(rqw.tokens@)[k] == abstract_of(rqw.tokens@[k]));
            }
        }
        rqw.write(writer)
    }

    /// Formats a heredoc's body with `formatting_func` in a fresh state (see
    /// `new_with_reset_indentation`), keeps the heredocs it declared, skips
    /// the comments up to `end_line`, and queues the heredoc at the current
    /// indentation.
    pub fn push_heredoc_content<F>(&mut self, symbol: &[u8], kind: HeredocKind, end_line: LineNumber, formatting_func: F)
        where
            F: FnOnce(&mut ParserState),
        requires
            old(self).wf(),
            end_line < LineNumber::MAX,
            forall|ps: &mut ParserState| ps.wf() ==> #[trigger] formatting_func.requires((ps,)),
            forall|ps: &mut ParserState, u: ()| #[trigger] formatting_func.ensures((ps,), u) ==> final(ps).wf(),
        ensures
            final(self).wf(),
            final(self).current_orig_line_number == end_line,
            final(self).heredoc_strings@.len() > old(self).heredoc_strings@.len(),
            final(self).heredoc_strings@.take(old(self).heredoc_strings@.len() as int) == old(self).heredoc_strings@,
            final(self).heredoc_strings@.last().symbol@ == symbol@,
            final(self).heredoc_strings@.last().kind == kind,
            final(self).heredoc_strings@.last().indent == old(self).spec_current_spaces(),
            final(self).frame() == old(self).frame(),
            final(self).target() == old(self).target(),
            exists|ps: &mut ParserState, toks: Seq<ConcreteLineToken>|
                #![trigger formatting_func.ensures((ps,), ()), crate::render_queue_writer::laid_out(final(ps).render_queue.tokens@, toks)]
                formatting_func.ensures((ps,), ()) && ps.wf() && ps.render_queue.tokens@.len() == 0
                    && ps.breakable_entry_stack@.len() == 0 && ps.heredoc_strings@.len() == 0
                    && ps.indent_depth.depth == 0 && ps.comments_to_insert is None
                    && ps.current_orig_line_number == old(self).current_orig_line_number
                    && ps.inside_squiggly_heredoc == (kind == HeredocKind::Squiggly || old(self).inside_squiggly_heredoc)
                    && crate::render_queue_writer::laid_out(final(ps).render_queue.tokens@, toks) && segment_views(
                    final(self).heredoc_strings@.last().segments@,
                ) == segments_of(toks),
    {
        let mut next_ps = ParserState::new_with_reset_indentation(self);
        next_ps.inside_squiggly_heredoc = kind.is_squiggly() || self.inside_squiggly_heredoc;
        formatting_func(&mut next_ps);
        let ghost ohs = self.heredoc_strings@;
        let mut inner: Vec<HeredocString> = Vec::new();
        std::mem::swap(&mut inner, &mut next_ps.heredoc_strings);
        let ghost ihs = inner@;
        self.heredoc_strings.append(&mut inner);
        let start = self.current_orig_line_number;
        let _ = self.comments_hash.extract_comments_to_line(start, end_line);
        self.current_orig_line_number = end_line;
        let segments = next_ps.render_to_segments();
        let indent = self.current_spaces();
        let sym = crate::util::bytes_of(symbol);
        self.heredoc_strings.push(HeredocString::new(sym, kind, segments, indent));
        proof {
            let hs = self.heredoc_strings@;
            assert(hs.take(ohs.len() as int) =~= ohs);
            assert forall|i: int| 0 <= i < hs.len() implies hs[i].indent != 1 && #[trigger] hs[i].indent as int + 2
                <= usize::MAX by {
                if i < ohs.len() {
                    assert(hs[i] == ohs[i]);
                } else if i < ohs.len() + ihs.len() {
                    assert(hs[i] == ihs[i - ohs.len()]);
                }
            }
        }
    }

    /// Runs `f` with indentation one level deeper.
    pub fn new_block<F>(&mut self, f: F)
        where
            F: FnOnce(&mut ParserState),
        requires
            old(self).wf(),
            old(self).indent_depth.depth < DEPTH_LIMIT,
            forall|ps: &mut ParserState| ps.wf() ==> #[trigger] f.requires((ps,)),
            forall|ps: &mut ParserState, u: ()| #[trigger] f.ensures((ps,), u) ==> final(ps).wf()
                && final(ps).frame() == ps.frame(),
        ensures
            final(self).wf(),
            final(self).frame() == old(self).frame(),
            exists|ps: &mut ParserState|
                #[trigger] f.ensures((ps,), ()) && *ps == (ParserState {
                    indent_depth: IndentDepth { depth: (old(self).indent_depth.depth + 1) as u32 },
                    ..*old(self)
                }) && *final(self) == (ParserState { indent_depth: old(self).indent_depth, ..*final(ps) }),
    {
        self.start_indent();
        f(self);
        self.end_indent();
    }

    /// Runs `f` with indentation one level shallower.
    pub fn dedent<F>(&mut self, f: F)
        where
            F: FnOnce(&mut ParserState),
        requires
            old(self).wf(),
            old(self).indent_depth.depth > 0,
            forall|ps: &mut ParserState| ps.wf() ==> #[trigger] f.requires((ps,)),
            forall|ps: &mut ParserState, u: ()| #[trigger] f.ensures((ps,), u) ==> final(ps).wf()
                && final(ps).frame() == ps.frame(),
        ensures
            final(self).wf(),
            final(self).frame() == old(self).frame(),
            exists|ps: &mut ParserState|
                #[trigger] f.ensures((ps,), ()) && *ps == (ParserState {
                    indent_depth: IndentDepth { depth: (old(self).indent_depth.depth - 1) as u32 },
                    ..*old(self)
                }) && *final(self) == (ParserState { indent_depth: old(self).indent_depth, ..*final(ps) }),
    {
        self.end_indent();
        f(self);
        self.start_indent();
    }

    /// Runs `f` in a fresh scope of local variables.
    pub fn new_scope<F>(&mut self, f: F)
        where
            F: FnOnce(&mut ParserState),
        requires
            old(self).wf(),
            forall|ps: &mut ParserState| ps.wf() ==> #[trigger] f.requires((ps,)),
            forall|ps: &mut ParserState, u: ()| #[trigger] f.ensures((ps,), u) ==> final(ps).wf()
                && final(ps).frame() == ps.frame(),
        ensures
            final(self).wf(),
            final(self).frame() == old(self).frame(),
            exists|ps: &mut ParserState|
                #[trigger] f.ensures((ps,), ()) && ps.scopes@.drop_last() == old(self).scopes@
                    && ps.scopes@.len() == old(self).scopes@.len() + 1 && ps.scopes@.last()@.len() == 0 && *ps
                    == (ParserState { scopes: ps.scopes, ..*old(self) })
                    && final(self).scopes@ == final(ps).scopes@.drop_last()
                    && *final(self) == (ParserState { scopes: final(self).scopes, ..*final(ps) }),
    {
        self.scopes.push(Vec::new());
        f(self);
        self.scopes.pop();
    }

    /// Runs `f` with `start_of_line` as whether it starts a line.
    pub fn with_start_of_line<F>(&mut self, start_of_line: bool, f: F)
        where
            F: FnOnce(&mut ParserState),
        requires
            old(self).wf(),
            forall|ps: &mut ParserState| ps.wf() ==> #[trigger] f.requires((ps,)),
            forall|ps: &mut ParserState, u: ()| #[trigger] f.ensures((ps,), u) ==> final(ps).wf()
                && final(ps).frame() == ps.frame(),
        ensures
            final(self).wf(),
            final(self).frame() == old(self).frame(),
            exists|ps: &mut ParserState|
                #[trigger] f.ensures((ps,), ()) && ps.start_of_line@ == old(self).start_of_line@.push(start_of_line)
                    && *ps == (ParserState { start_of_line: ps.start_of_line, ..*old(self) })
                    && final(self).start_of_line@ == final(ps).start_of_line@.drop_last() && *final(self)
                    == (ParserState { start_of_line: final(self).start_of_line, ..*final(ps) }),
    {
        self.start_of_line.push(start_of_line);
        f(self);
        self.start_of_line.pop();
        assert(self.start_of_line@ =~= old(self).start_of_line@);
    }

    /// Runs `f` in the formatting context `fc`.
    pub fn with_formatting_context<F>(&mut self, fc: FormattingContext, f: F)
        where
            F: FnOnce(&mut ParserState),
        requires
            old(self).wf(),
            forall|ps: &mut ParserState| ps.wf() ==> #[trigger] f.requires((ps,)),
            forall|ps: &mut ParserState, u: ()| #[trigger] f.ensures((ps,), u) ==> final(ps).wf()
                && final(ps).frame() == ps.frame(),
        ensures
            final(self).wf(),
            final(self).frame() == old(self).frame(),
            exists|ps: &mut ParserState|
                #[trigger] f.ensures((ps,), ()) && ps.formatting_context@ == old(self).formatting_context@.push(fc)
                    && *ps == (ParserState { formatting_context: ps.formatting_context, ..*old(self) })
                    && final(self).formatting_context@ == final(ps).formatting_context@.drop_last() && *final(self)
                    == (ParserState { formatting_context: final(self).formatting_context, ..*final(ps) }),
    {
        self.formatting_context.push(fc);
        f(self);
        self.formatting_context.pop();
        assert(self.formatting_context@ =~= old(self).formatting_context@);
    }

    /// Opens a breakable entry for `delims` (after the pending comments), lets
    /// `f` fill it one level deeper between collapsing newlines, and adds it
    /// to the target.
    pub fn breakable_of<F>(&mut self, delims: BreakableDelims, f: F)
        where
            F: FnOnce(&mut ParserState),
        requires
            old(self).wf(),
            old(self).indent_depth.depth < DEPTH_LIMIT,
            forall|ps: &mut ParserState| ps.wf() ==> #[trigger] f.requires((ps,)),
            forall|ps: &mut ParserState, u: ()| #[trigger] f.ensures((ps,), u) ==> final(ps).wf()
                && final(ps).frame() == ps.frame(),
        ensures
            final(self).wf(),
            final(self).frame() == old(self).frame(),
            final(self).target().len() > 0,
            final(self).target().last() is BreakableEntry,
            exists|ps: &mut ParserState|
                #[trigger] f.ensures((ps,), ()) && ps.outer_target() == old(self).shifted_target() && top_delims(ps)
                    == Some(delims@) && ps.target().len() == 1 && ps.target()[0] is CollapsingNewLine
                    && ps.indent_depth.depth == old(self).indent_depth.depth + 1 && delimited_entry_closed(
                    final(self).target(),
                    final(ps).outer_target(),
                    final(ps).target(),
                    top_delims(final(ps)),
                    true,
                    final(ps).comments_to_insert is None,
                ),
    {
        self.shift_comments();
        let mut be = BreakableEntry::new(delims, self.formatting_context.as_slice());
        be.push_line_number(self.current_orig_line_number);
        self.open_breakable(Breakable::DelimiterExpr(be));
        let ghost f0 = self.frame();
        self.start_indent();
        self.emit_collapsing_newline();
        let ghost before_f = *self;
        f(self);
        let ghost after_f = *self;
        proof {
            lemma_kinds(self.breakable_entry_stack@);
            lemma_kinds(old(self).breakable_entry_stack@);
            assert(stack_kinds(self.breakable_entry_stack@)[self.breakable_entry_stack@.len() - 1]);
        }
        self.emit_collapsing_newline();
        let ghost after_nl = self.target();
        self.end_indent();
        self.reset_space_count();
        proof {
            self.lemma_shifted_len();
        }
        let ghost before_shift = *self;
        self.shift_comments();
        self.emit_soft_indent();
        assert(self.frame() == f0);
        proof {
            let inner = after_f.target();
            let t = self.target();
            lemma_shift_keeps_prefix(&before_shift);
            assert(t.drop_last() == before_shift.shifted_target());
            assert(before_shift.target() == after_nl);
            assert(after_nl.take(inner.len() as int) == inner);
            if inner.len() > 0 {
                assert(t.take(inner.len() - 1) =~= inner.drop_last());
            }
            if after_f.comments_to_insert is None {
                assert(t.take(inner.len() as int) =~= inner);
            }
        }
        proof {
            lemma_kinds(self.breakable_entry_stack@);
            assert(stack_kinds(self.breakable_entry_stack@)[self.breakable_entry_stack@.len() - 1]);
        }
        let ghost pre_close = *self;
        assert(pre_close.outer_target() == after_f.outer_target());
        assert(top_delims(&pre_close) == top_delims(&after_f));
        assert(self.breakable_entry_stack@.last() matches Breakable::DelimiterExpr(e) && e.tokens@ == pre_close.target());
        let ghost mid = self.breakable_entry_stack@;
        self.close_breakable(true);
        proof {
            lemma_close_kinds(self.breakable_entry_stack@, mid, old(self).breakable_entry_stack@, true);
        }
        proof {
            let tt = self.target();
            assert(tt == pre_close.outer_target().push(breakable_token(pre_close.breakable_entry_stack@.last())));
            assert(tt.drop_last() =~= after_f.outer_target());
            match pre_close.breakable_entry_stack@.last() {
                Breakable::DelimiterExpr(e) => {
                    assert(tt.last() == AbstractLineToken::BreakableEntry(e));
                    assert(e.tokens@ == pre_close.target());
                    assert(Some(e.delims@) == top_delims(&after_f));
                },
                _ => {},
            }
        }
        assert(before_f.outer_target() == old(self).shifted_target());
        assert(top_delims(&before_f) == Some(delims@));
        assert(before_f.target().len() == 1 && before_f.target()[0] is CollapsingNewLine);
        assert(delimited_entry_closed(
            self.target(),
            after_f.outer_target(),
            after_f.target(),
            top_delims(&after_f),
            true,
            after_f.comments_to_insert is None,
        ));
    }

    /// `breakable_of` for lists with whitespace delimiters (the conditions of
    /// a `when` clause): no collapsing newlines, no soft indentation.
    pub fn inline_breakable_of<F>(&mut self, delims: BreakableDelims, f: F)
        where
            F: FnOnce(&mut ParserState),
        requires
            old(self).wf(),
            old(self).indent_depth.depth < DEPTH_LIMIT,
            forall|ps: &mut ParserState| ps.wf() ==> #[trigger] f.requires((ps,)),
            forall|ps: &mut ParserState, u: ()| #[trigger] f.ensures((ps,), u) ==> final(ps).wf()
                && final(ps).frame() == ps.frame(),
        ensures
            final(self).wf(),
            final(self).frame() == old(self).frame(),
            final(self).target().len() > 0,
            final(self).target().last() is BreakableEntry,
            exists|ps: &mut ParserState|
                #[trigger] f.ensures((ps,), ()) && ps.outer_target() == old(self).shifted_target() && top_delims(ps)
                    == Some(delims@) && ps.target().len() == 0 && ps.indent_depth.depth
                    == old(self).indent_depth.depth + 1 && delimited_entry_closed(
                    final(self).target(),
                    final(ps).outer_target(),
                    final(ps).target(),
                    top_delims(final(ps)),
                    false,
                    final(ps).comments_to_insert is None,
                ),
    {
        self.shift_comments();
        let mut be = BreakableEntry::new(delims, self.formatting_context.as_slice());
        be.push_line_number(self.current_orig_line_number);
        self.open_breakable(Breakable::DelimiterExpr(be));
        let ghost f0 = self.frame();
        self.start_indent();
        let ghost before_f = *self;
        f(self);
        let ghost after_f = *self;
        proof {
            lemma_kinds(self.breakable_entry_stack@);
            lemma_kinds(old(self).breakable_entry_stack@);
            assert(stack_kinds(self.breakable_entry_stack@)[self.breakable_entry_stack@.len() - 1]);
        }
        self.end_indent();
        self.reset_space_count();
        self.shift_comments();
        assert(self.frame() == f0);
        proof {
            lemma_kinds(self.breakable_entry_stack@);
            assert(stack_kinds(self.breakable_entry_stack@)[self.breakable_entry_stack@.len() - 1]);
        }
        let ghost pre_close = *self;
        assert(pre_close.outer_target() == after_f.outer_target());
        assert(top_delims(&pre_close) == top_delims(&after_f));
        assert(after_f.comments_to_insert is None ==> pre_close.target() == after_f.target());
        let ghost mid = self.breakable_entry_stack@;
        self.close_breakable(true);
        proof {
            lemma_close_kinds(self.breakable_entry_stack@, mid, old(self).breakable_entry_stack@, true);
            let tt = self.target();
            assert(tt == pre_close.outer_target().push(breakable_token(pre_close.breakable_entry_stack@.last())));
            assert(tt.drop_last() =~= after_f.outer_target());
            match pre_close.breakable_entry_stack@.last() {
                Breakable::DelimiterExpr(e) => {
                    assert(tt.last() == AbstractLineToken::BreakableEntry(e));
                    assert(e.tokens@ == pre_close.target());
                },
                _ => {},
            }
        }
        assert(before_f.outer_target() == old(self).shifted_target());
        assert(top_delims(&before_f) == Some(delims@));
    }

    /// Opens a call chain, lets `f` fill it, and adds it to the target.
    pub fn breakable_call_chain_of<F>(&mut self, is_user_multilined: bool, f: F)
        where
            F: FnOnce(&mut ParserState),
        requires
            old(self).wf(),
            forall|ps: &mut ParserState| ps.wf() ==> #[trigger] f.requires((ps,)),
            forall|ps: &mut ParserState, u: ()| #[trigger] f.ensures((ps,), u) ==> final(ps).wf()
                && final(ps).frame() == ps.frame(),
        ensures
            final(self).wf(),
            final(self).frame() == old(self).frame(),
            final(self).target().len() > 0,
            final(self).target().last() is BreakableCallChainEntry,
            exists|ps: &mut ParserState|
                #[trigger] f.ensures((ps,), ()) && ps.outer_target() == old(self).shifted_target()
                    && top_user_multilined(ps) == Some(is_user_multilined) && ps.target().len() == 0
                    && call_chain_entry_closed(
                    final(self).target(),
                    final(ps).outer_target(),
                    final(ps).target(),
                    top_user_multilined(final(ps)),
                ),
    {
        self.shift_comments();
        let mut be = BreakableCallChainEntry::new(self.formatting_context.as_slice(), is_user_multilined);
        be.push_line_number(self.current_orig_line_number);
        self.open_breakable(Breakable::CallChain(be));
        let ghost f0 = self.frame();
        let ghost before_f = *self;
        f(self);
        let ghost after_f = *self;
        assert(self.frame() == f0);
        proof {
            lemma_kinds(self.breakable_entry_stack@);
            lemma_kinds(old(self).breakable_entry_stack@);
            assert(!stack_kinds(self.breakable_entry_stack@)[self.breakable_entry_stack@.len() - 1]);
        }
        let ghost mid = self.breakable_entry_stack@;
        self.close_breakable(false);
        proof {
            lemma_close_kinds(self.breakable_entry_stack@, mid, old(self).breakable_entry_stack@, false);
            let tt = self.target();
            assert(tt == after_f.outer_target().push(breakable_token(after_f.breakable_entry_stack@.last())));
            assert(tt.drop_last() =~= after_f.outer_target());
            match after_f.breakable_entry_stack@.last() {
                Breakable::CallChain(c) => {
                    assert(tt.last() == AbstractLineToken::BreakableCallChainEntry(c));
                    assert(c.tokens@ == after_f.target());
                },
                _ => {},
            }
        }
        assert(before_f.outer_target() == old(self).shifted_target());
        assert(top_user_multilined(&before_f) == Some(is_user_multilined));
    }

    /// Pushes an empty breakable entry onto the stack.
    fn open_breakable(&mut self, b: Breakable)
        requires
            old(self).wf(),
            b.spec_tokens().len() == 0,
        ensures
            final(self).wf(),
            final(self).breakable_entry_stack@ == old(self).breakable_entry_stack@.push(b),
            *final(self) == (ParserState { breakable_entry_stack: final(self).breakable_entry_stack, ..*old(self) }),
            final(self).frame() == (
                old(self).frame().0,
                old(self).frame().1,
                old(self).frame().2,
                old(self).frame().3,
                old(self).frame().4,
                old(self).frame().5.push(b is DelimiterExpr),
            ),
    {
        let ghost b2 = b;
        self.breakable_entry_stack.push(b);
        proof {
            let st = self.breakable_entry_stack@;
            assert forall|i: int| 0 <= i < st.len() implies tokens_ok(#[trigger] st[i].spec_tokens()) by {
                if i < st.len() - 1 {
                    assert(st[i] == old(self).breakable_entry_stack@[i]);
                }
            }
            assert(stack_kinds(st) =~= stack_kinds(old(self).breakable_entry_stack@).push(b2 is DelimiterExpr));
        }
    }

    /// Pops the innermost breakable entry (of the given kind) and adds it to
    /// the target below.
    fn close_breakable(&mut self, delimited: bool)
        requires
            old(self).wf(),
            old(self).breakable_entry_stack@.len() > 0,
            (old(self).breakable_entry_stack@.last() is DelimiterExpr) == delimited,
        ensures
            final(self).wf(),
            final(self).breakable_entry_stack@.len() == old(self).breakable_entry_stack@.len() - 1,
            forall|i: int| 0 <= i < final(self).breakable_entry_stack@.len() - 1 ==> #[trigger] final(self).breakable_entry_stack@[i]
                == old(self).breakable_entry_stack@[i],
            final(self).breakable_entry_stack@.len() > 0 ==> old(self).breakable_entry_stack@[final(self).breakable_entry_stack@.len() - 1].same_frame(
                final(self).breakable_entry_stack@.last(),
            ),
            final(self).target().len() > 0,
            delimited ==> final(self).target().last() is BreakableEntry,
            !delimited ==> final(self).target().last() is BreakableCallChainEntry,
            final(self).target() == old(self).outer_target().push(breakable_token(old(self).breakable_entry_stack@.last())),
            final(self).indent_depth == old(self).indent_depth,
            final(self).start_of_line == old(self).start_of_line,
            final(self).suppress_comments_stack == old(self).suppress_comments_stack,
            final(self).formatting_context == old(self).formatting_context,
            final(self).scopes == old(self).scopes,
    {
        let n = self.breakable_entry_stack.len();
        let top = self.breakable_entry_stack.pop().unwrap();
        proof {
            assert(top == old(self).breakable_entry_stack@[n - 1]);
            assert(tokens_ok(top.spec_tokens()));
            lemma_seq_ok_all(top.spec_tokens());
            let st = self.breakable_entry_stack@;
            assert forall|i: int| 0 <= i < st.len() implies tokens_ok(#[trigger] st[i].spec_tokens()) by {
                assert(st[i] == old(self).breakable_entry_stack@[i]);
            }
        }
        if delimited {
            let be = top.into_breakable_entry().unwrap();
            self.push_target(ConcreteLineTokenAndTargets::BreakableEntry(be));
        } else {
            let bcce = top.into_breakable_call_chain().unwrap();
            self.push_target(ConcreteLineTokenAndTargets::BreakableCallChainEntry(bcce));
        }
    }

    /// The stacks that functions handed to the state must leave as they
    /// found them.
    pub open spec fn frame(&self) -> (u32, Seq<bool>, Seq<bool>, Seq<FormattingContext>, nat, Seq<bool>) {
        (
            self.indent_depth.depth,
            self.start_of_line@,
            self.suppress_comments_stack@,
            self.formatting_context@,
            self.scopes@.len(),
            stack_kinds(self.breakable_entry_stack@),
        )
    }

    /// Inserting the pending comments keeps every token of the target.
    pub proof fn lemma_shifted_len(&self)
        requires
            self.wf(),
        ensures
            self.shifted_target().len() >= self.target().len(),
            self.spec_prev_newline() matches Some(i) ==> 0 <= i <= self.target().len(),
    {
        if self.breakable_entry_stack@.len() > 0 {
            crate::render_targets::lemma_abstract_last_break_bound(self.breakable_entry_stack@.last().spec_tokens());
        } else {
            crate::render_targets::lemma_last_break_bound(self.render_queue.tokens@);
        }
    }

    /// The number of spaces of the current indentation.
    pub open spec fn spec_current_spaces(&self) -> u32 {
        (2 * self.indent_depth.depth) as u32
    }

    pub fn new(fc: FileComments) -> (r: Self)
        requires
            fc.wf(),
        ensures
            r.wf(),
            r.indent_depth.depth == 0,
            r.start_of_line@ == seq![true],
            r.suppress_comments_stack@ == seq![false],
            r.render_queue.tokens@.len() == 0,
            r.current_orig_line_number == 0,
            r.comments_hash == fc,
            r.heredoc_strings@.len() == 0,
            r.comments_to_insert is None,
            r.breakable_entry_stack@.len() == 0,
            r.formatting_context@ == seq![FormattingContext::Main],
            r.insert_user_newlines,
            r.spaces_after_last_newline == 0,
            r.scopes@.len() == 1 && r.scopes@[0]@.len() == 0,
            !r.inside_squiggly_heredoc,
    {
        let r = ParserState {
            indent_depth: IndentDepth::new(),
            start_of_line: vec![true],
            suppress_comments_stack: vec![false],
            render_queue: BaseQueue::default(),
            current_orig_line_number: 0,
            comments_hash: fc,
            heredoc_strings: Vec::new(),
            comments_to_insert: None,
            breakable_entry_stack: Vec::new(),
            formatting_context: vec![FormattingContext::Main],
            insert_user_newlines: true,
            spaces_after_last_newline: 0,
            scopes: vec![Vec::new()],
            inside_squiggly_heredoc: false,
        };
        assert(queue_view(r.render_queue.tokens@) =~= Seq::<AbstractLineToken>::empty());
        r
    }

    pub fn current_spaces(&self) -> (r: ColNumber)
        requires
            self.wf(),
        ensures
            r == self.spec_current_spaces(),
            r == 2 * self.indent_depth.depth,
    {
        2 * self.indent_depth.get()
    }

    /// Whether the last token of the target is a newline.
    pub fn last_token_is_a_newline(&self) -> (r: bool)
        requires
            self.wf(),
        ensures
            r == (self.target().len() > 0 && self.target().last().spec_is_newline()),
    {
        let n = self.breakable_entry_stack.len();
        if n > 0 {
            let be = &self.breakable_entry_stack[n - 1];
            proof {
                assert(tokens_ok(self.breakable_entry_stack@[n - 1].spec_tokens()));
            }
            be.last_token_is_a_newline()
        } else {
            proof {
                let q = self.render_queue.tokens@;
                if q.len() > 0 {
                    lemma_abstract_of(q.last());
                    assert(queue_view(q)[q.len() - 1] == abstract_of(q.last()));
                }
            }
            self.render_queue.last_token_is_a_newline()
        }
    }

    /// The index in the target after its last newline (or at its last
    /// indent).
    pub fn index_of_prev_hard_newline(&self) -> (r: Option<usize>)
        requires
            self.wf(),
        ensures
            r == (match self.spec_prev_newline() {
                Some(i) => Some(i as usize),
                None => None::<usize>,
            }),
            r matches Some(i) ==> i <= self.target().len(),
            self.spec_prev_newline() matches Some(i) ==> 0 <= i <= self.target().len(),
            r matches Some(x) ==> self.spec_prev_newline() == Some(x as int),
            r is None ==> self.spec_prev_newline() is None,
    {
        let n = self.breakable_entry_stack.len();
        if n > 0 {
            let be = &self.breakable_entry_stack[n - 1];
            let _len = be.len();
            proof {
                assert(tokens_ok(self.breakable_entry_stack@[n - 1].spec_tokens()));
                crate::render_targets::lemma_abstract_last_break_bound(be.spec_tokens());
            }
            be.index_of_prev_newline()
        } else {
            proof {
                let q = self.render_queue.tokens@;
                assert forall|i: int| 0 <= i < q.len() implies (#[trigger] q[i]).newline_safe() by {
                    lemma_abstract_of(q[i]);
                    assert(queue_view(q)[i] == abstract_of(q[i]));
                }
                crate::render_targets::lemma_last_break_bound(q);
            }
            let _len = self.render_queue.tokens.len();
            self.render_queue.index_of_prev_newline()
        }
    }

    /// Adds a token or target to the innermost breakable entry, or to the
    /// render queue.
    pub fn push_target(&mut self, t: ConcreteLineTokenAndTargets)
        requires
            old(self).wf(),
            adeep_ok(abstract_of(t)),
            t.newline_safe(),
        ensures
            final(self).wf(),
            final(self).target() == old(self).target().push(abstract_of(t)),
            final(self).same_but_target(old(self)),
    {
        proof {
            lemma_abstract_of(t);
        }
        let ghost t2 = t;
        let n = self.breakable_entry_stack.len();
        if n > 0 {
            let mut be = self.breakable_entry_stack.pop().unwrap();
            be.push(t.into_abstract());
            self.breakable_entry_stack.push(be);
            proof {
                let s = self.breakable_entry_stack@;
                assert(s[n - 1] == be);
                assert forall|i: int| 0 <= i < n - 1 implies #[trigger] s[i] == old(self).breakable_entry_stack@[i] by {
                }
                lemma_top_kinds(s, old(self).breakable_entry_stack@);
                assert forall|i: int| 0 <= i < s.len() implies tokens_ok(#[trigger] s[i].spec_tokens()) by {
                    if i < n - 1 {
                        assert(s[i] == old(self).breakable_entry_stack@[i]);
                    } else {
                        let ts = s[i].spec_tokens();
                        let os = old(self).breakable_entry_stack@[i].spec_tokens();
                        assert(tokens_ok(os));
                        assert forall|k: int| 0 <= k < ts.len() implies adeep_ok(#[trigger] ts[k]) && ts[k].newline_safe() by {
                            if k < os.len() {
                                assert(ts[k] == os[k]);
                            }
                        }
                    }
                }
            }
        } else {
            self.render_queue.push(t);
            proof {
                let ts = queue_view(self.render_queue.tokens@);
                let os = queue_view(old(self).render_queue.tokens@);
                assert(ts =~= os.push(abstract_of(t2)));
                assert forall|k: int| 0 <= k < ts.len() implies adeep_ok(#[trigger] ts[k]) && ts[k].newline_safe() by {
                    if k < os.len() {
                        assert(ts[k] == os[k]);
                    }
                }
            }
        }
    }

    /// Adds an abstract token to the innermost breakable entry; with no entry
    /// open it must be a plain token or a target.
    pub fn push_abstract_token(&mut self, t: AbstractLineToken)
        requires
            old(self).wf(),
            adeep_ok(t),
            t.newline_safe(),
            old(self).breakable_entry_stack@.len() == 0 ==> (t is ConcreteLineToken || t is BreakableEntry
                || t is BreakableCallChainEntry),
        ensures
            final(self).wf(),
            final(self).target() == old(self).target().push(t),
            final(self).same_but_target(old(self)),
    {
        let n = self.breakable_entry_stack.len();
        if n > 0 {
            let ghost t2 = t;
            let mut be = self.breakable_entry_stack.pop().unwrap();
            be.push(t);
            self.breakable_entry_stack.push(be);
            proof {
                let s = self.breakable_entry_stack@;
                assert(s[n - 1] == be);
                assert forall|i: int| 0 <= i < n - 1 implies #[trigger] s[i] == old(self).breakable_entry_stack@[i] by {
                }
                lemma_top_kinds(s, old(self).breakable_entry_stack@);
                assert forall|i: int| 0 <= i < s.len() implies tokens_ok(#[trigger] s[i].spec_tokens()) by {
                    if i < n - 1 {
                        assert(s[i] == old(self).breakable_entry_stack@[i]);
                    } else {
                        let ts = s[i].spec_tokens();
                        let os = old(self).breakable_entry_stack@[i].spec_tokens();
                        assert(tokens_ok(os));
                        assert forall|k: int| 0 <= k < ts.len() implies adeep_ok(#[trigger] ts[k]) && ts[k].newline_safe() by {
                            if k < os.len() {
                                assert(ts[k] == os[k]);
                            }
                        }
                    }
                }
            }
        } else {
            let c = Self::dangerously_convert(t);
            self.push_target(c);
        }
    }

    /// The token as a plain token or target.
    pub fn dangerously_convert(t: AbstractLineToken) -> (r: ConcreteLineTokenAndTargets)
        requires
            t is ConcreteLineToken || t is BreakableEntry || t is BreakableCallChainEntry,
        ensures
            abstract_of(r) == t,
    {
        match t {
            AbstractLineToken::ConcreteLineToken(clt) => ConcreteLineTokenAndTargets::ConcreteLineToken(clt),
            AbstractLineToken::BreakableEntry(be) => ConcreteLineTokenAndTargets::BreakableEntry(be),
            AbstractLineToken::BreakableCallChainEntry(bcce) => ConcreteLineTokenAndTargets::BreakableCallChainEntry(
                bcce,
            ),
            AbstractLineToken::CollapsingNewLine(_) => {
                proof {
                    assert(false);
                }
                ConcreteLineTokenAndTargets::ConcreteLineToken(ConcreteLineToken::HardNewLine)
            },
            AbstractLineToken::SoftNewline(_) => {
                proof {
                    assert(false);
                }
                ConcreteLineTokenAndTargets::ConcreteLineToken(ConcreteLineToken::HardNewLine)
            },
            AbstractLineToken::SoftIndent { .. } => {
                proof {
                    assert(false);
                }
                ConcreteLineTokenAndTargets::ConcreteLineToken(ConcreteLineToken::HardNewLine)
            },
        }
    }

    /// Inserts plain tokens into the target at `insert_idx`.
    pub fn insert_concrete_tokens(&mut self, insert_idx: usize, clts: Vec<ConcreteLineToken>)
        requires
            old(self).wf(),
            insert_idx <= old(self).target().len(),
            forall|k: int| 0 <= k < clts@.len() ==> plain_ok(#[trigger] clts@[k]),
        ensures
            final(self).wf(),
            final(self).target() == old(self).target().take(insert_idx as int) + clts@.map_values(
                |c: ConcreteLineToken| AbstractLineToken::ConcreteLineToken(c),
            ) + old(self).target().skip(insert_idx as int),
            final(self).same_but_target(old(self)),
    {
        let ghost cv = clts@.map_values(|c: ConcreteLineToken| AbstractLineToken::ConcreteLineToken(c));
        proof {
            assert forall|k: int| 0 <= k < cv.len() implies adeep_ok(#[trigger] cv[k]) && cv[k].newline_safe() by {
                assert(plain_ok(clts@[k]));
            }
        }
        let n = self.breakable_entry_stack.len();
        let mut rest = clts;
        let ghost cs = rest@;
        let total = rest.len();
        if n > 0 {
            let mut toks: Vec<AbstractLineToken> = Vec::new();
            let mut k: usize = 0;
            while rest.len() > 0
                invariant
                    rest@ == cs.skip(k as int),
                    k <= cs.len(),
                    cs.len() == total,
                    toks@ == cv.take(k as int),
                    cv == cs.map_values(|c: ConcreteLineToken| AbstractLineToken::ConcreteLineToken(c)),
                decreases rest@.len(),
            {
                let c = rest.remove(0);
                assert(cs.skip(k as int).remove(0) =~= cs.skip(k + 1));
                toks.push(AbstractLineToken::ConcreteLineToken(c));
                assert(toks@ =~= cv.take(k + 1));
                k = k + 1;
            }
            assert(cv.take(k as int) =~= cv);
            let mut be = self.breakable_entry_stack.pop().unwrap();
            be.insert_at(insert_idx, toks);
            self.breakable_entry_stack.push(be);
            proof {
                let s = self.breakable_entry_stack@;
                assert(s[n - 1] == be);
                assert forall|i: int| 0 <= i < n - 1 implies #[trigger] s[i] == old(self).breakable_entry_stack@[i] by {
                }
                lemma_top_kinds(s, old(self).breakable_entry_stack@);
                assert forall|i: int| 0 <= i < s.len() implies tokens_ok(#[trigger] s[i].spec_tokens()) by {
                    if i < n - 1 {
                        assert(s[i] == old(self).breakable_entry_stack@[i]);
                    } else {
                        lemma_tokens_ok_insert(old(self).breakable_entry_stack@[i].spec_tokens(), cv, insert_idx as int);
                    }
                }
            }
        } else {
            let mut toks: Vec<ConcreteLineTokenAndTargets> = Vec::new();
            let ghost tv = cs.map_values(|c: ConcreteLineToken| ConcreteLineTokenAndTargets::ConcreteLineToken(c));
            let mut k: usize = 0;
            while rest.len() > 0
                invariant
                    rest@ == cs.skip(k as int),
                    k <= cs.len(),
                    cs.len() == total,
                    toks@ == tv.take(k as int),
                    tv == cs.map_values(|c: ConcreteLineToken| ConcreteLineTokenAndTargets::ConcreteLineToken(c)),
                decreases rest@.len(),
            {
                let c = rest.remove(0);
                assert(cs.skip(k as int).remove(0) =~= cs.skip(k + 1));
                toks.push(ConcreteLineTokenAndTargets::ConcreteLineToken(c));
                assert(toks@ =~= tv.take(k + 1));
                k = k + 1;
            }
            assert(tv.take(k as int) =~= tv);
            let ghost oq = self.render_queue.tokens@;
            self.render_queue.insert_at(insert_idx, toks);
            proof {
                let nq = self.render_queue.tokens@;
                assert(queue_view(tv) =~= cv);
                assert(queue_view(nq) =~= queue_view(oq).take(insert_idx as int) + cv + queue_view(oq).skip(
                    insert_idx as int,
                ));
                lemma_tokens_ok_insert(queue_view(oq), cv, insert_idx as int);
            }
        }
    }

    /// Inserts the pending comments into the target at `index`.
    pub fn shift_comments_at_index(&mut self, index: usize)
        requires
            old(self).wf(),
            index <= old(self).target().len(),
        ensures
            final(self).wf(),
            final(self).comments_to_insert is None,
            final(self).same_but_target(&ParserState { comments_to_insert: None, ..*old(self) }),
            final(self).target() == (match old(self).comments_to_insert {
                Some(c) => old(self).target().take(index as int) + comment_tokens(c.comments@, c.comments@.len()).map_values(
                    |t: ConcreteLineToken| AbstractLineToken::ConcreteLineToken(t),
                ) + old(self).target().skip(index as int),
                None => old(self).target(),
            }),
    {
        if let Some(new_comments) = self.comments_to_insert.take() {
            let ghost cs = new_comments.comments@;
            let toks = new_comments.into_line_tokens();
            proof {
                crate::comment_block::lemma_comment_tokens_plain(cs, cs.len());
                assert forall|k: int| 0 <= k < toks@.len() implies plain_ok(#[trigger] toks@[k]) by {
                    assert(toks@[k] is Comment || toks@[k] is HardNewLine);
                }
            }
            self.insert_concrete_tokens(index, toks);
        }
    }

    /// Inserts the pending comments after the last newline of the target.
    pub fn shift_comments(&mut self)
        requires
            old(self).wf(),
        ensures
            final(self).wf(),
            final(self).comments_to_insert is None,
            final(self).same_but_target(&ParserState { comments_to_insert: None, ..*old(self) }),
            ({
                let index = match old(self).spec_prev_newline() {
                    Some(i) => i,
                    None => 0,
                };
                final(self).target() == (match old(self).comments_to_insert {
                    Some(c) => old(self).target().take(index) + comment_tokens(c.comments@, c.comments@.len()).map_values(
                        |t: ConcreteLineToken| AbstractLineToken::ConcreteLineToken(t),
                    ) + old(self).target().skip(index),
                    None => old(self).target(),
                })
            }),
    {
        let idx = self.index_of_prev_hard_newline();
        let index = match idx {
            Some(i) => i,
            None => 0,
        };
        assert(index as int == match old(self).spec_prev_newline() {
            Some(i) => i,
            None => 0,
        });
        self.shift_comments_at_index(index);
    }

    /// Hands out the pending heredocs, last declared first.
    pub fn gather_heredocs(&mut self) -> (r: Option<Vec<HeredocString>>)
        requires
            old(self).wf(),
        ensures
            final(self).wf(),
            *final(self) == (ParserState { heredoc_strings: final(self).heredoc_strings, ..*old(self) }),
            final(self).heredoc_strings@.len() == 0,
            old(self).heredoc_strings@.len() == 0 ==> r is None,
            old(self).heredoc_strings@.len() > 0 ==> (r matches Some(v) && v@ == old(self).heredoc_strings@.reverse()),
            r matches Some(v) ==> heredocs_ok(v@),
    {
        if self.heredoc_strings.len() == 0 {
            return None;
        }
        let ghost hs = self.heredoc_strings@;
        let mut pending: Vec<HeredocString> = Vec::new();
        std::mem::swap(&mut pending, &mut self.heredoc_strings);
        let mut out: Vec<HeredocString> = Vec::new();
        while pending.len() > 0
            invariant
                hs.len() >= pending@.len(),
                pending@ == hs.take(pending@.len() as int),
                out@ == hs.reverse().take(hs.len() - pending@.len()),
            decreases pending@.len(),
        {
            let h = pending.pop().unwrap();
            out.push(h);
            assert(out@ =~= hs.reverse().take(hs.len() - pending@.len()));
        }
        assert(out@ =~= hs.reverse());
        proof {
            assert forall|i: int| 0 <= i < out@.len() implies out@[i].indent != 1 && #[trigger] out@[i].indent as int
                + 2 <= usize::MAX by {
                assert(out@[i] == hs[hs.len() - 1 - i]);
            }
        }
        Some(out)
    }

    /// Sets the spaces for comments to the current indentation.
    pub fn reset_space_count(&mut self)
        requires
            old(self).wf(),
        ensures
            final(self).wf(),
            *final(self) == (ParserState { spaces_after_last_newline: old(self).spec_current_spaces(), ..*old(self) }),
    {
        self.spaces_after_last_newline = self.current_spaces();
    }

    pub fn start_indent(&mut self)
        requires
            old(self).wf(),
            old(self).indent_depth.depth < DEPTH_LIMIT,
        ensures
            final(self).wf(),
            final(self).indent_depth.depth == old(self).indent_depth.depth + 1,
            *final(self) == (ParserState { indent_depth: final(self).indent_depth, ..*old(self) }),
    {
        self.indent_depth.increment();
    }

    pub fn end_indent(&mut self)
        requires
            old(self).wf(),
            old(self).indent_depth.depth > 0,
        ensures
            final(self).wf(),
            final(self).indent_depth.depth == old(self).indent_depth.depth - 1,
            *final(self) == (ParserState { indent_depth: final(self).indent_depth, ..*old(self) }),
    {
        self.indent_depth.decrement();
    }

    pub fn at_start_of_line(&self) -> (r: bool)
        requires
            self.wf(),
        ensures
            r == self.start_of_line@.last(),
    {
        self.start_of_line[self.start_of_line.len() - 1]
    }

    pub fn current_formatting_context(&self) -> (r: FormattingContext)
        requires
            self.wf(),
        ensures
            r == self.formatting_context@.last(),
    {
        self.formatting_context[self.formatting_context.len() - 1]
    }

    pub fn current_formatting_context_requires_parens(&self) -> (r: bool)
        requires
            self.wf(),
        ensures
            r == (self.formatting_context@.last() == FormattingContext::Binary || self.formatting_context@.last()
                == FormattingContext::IfOp),
    {
        let fc = self.current_formatting_context();
        match fc {
            FormattingContext::Binary => true,
            FormattingContext::IfOp => true,
            _ => false,
        }
    }

    /// The innermost hash type among the formatting contexts.
    pub fn hash_type_from_formatting_context(&self) -> (r: Option<&HashType>)
        ensures
            r matches Some(h) ==> exists|i: int|
                0 <= i < self.formatting_context@.len() && self.formatting_context@[i] == FormattingContext::HashType(*h)
                    && forall|j: int| i < j < self.formatting_context@.len() ==> !(#[trigger] self.formatting_context@[j] is HashType),
            r is None ==> forall|j: int|
                0 <= j < self.formatting_context@.len() ==> !(#[trigger] self.formatting_context@[j] is HashType),
    {
        let mut i = self.formatting_context.len();
        while i > 0
            invariant
                i <= self.formatting_context@.len(),
                forall|j: int| i <= j < self.formatting_context@.len() ==> !(#[trigger] self.formatting_context@[j] is HashType),
            decreases i,
        {
            match &self.formatting_context[i - 1] {
                FormattingContext::HashType(hash_type) => {
                    return Some(hash_type);
                },
                _ => {},
            }
            i = i - 1;
        }
        None
    }

    pub fn disable_user_newlines(&mut self)
        ensures
            *final(self) == (ParserState { insert_user_newlines: false, ..*old(self) }),
    {
        self.insert_user_newlines = false;
    }

    pub fn has_pending_heredocs(&self) -> (r: bool)
        ensures
            r == (self.heredoc_strings@.len() > 0),
    {
        self.heredoc_strings.len() > 0
    }

    /// Whether the innermost scope binds `s`.
    pub fn scope_has_variable(&self, s: &[u8]) -> (r: bool)
        requires
            self.wf(),
        ensures
            r == exists|j: int|
                0 <= j < self.scopes@.last()@.len() && (#[trigger] self.scopes@.last()@[j])@ == s@,
    {
        let scope = &self.scopes[self.scopes.len() - 1];
        assert(*scope == self.scopes@.last());
        let mut j: usize = 0;
        while j < scope.len()
            invariant
                *scope == self.scopes@.last(),
                j <= scope@.len(),
                forall|k: int| 0 <= k < j ==> (#[trigger] scope@[k])@ != s@,
            decreases scope@.len() - j,
        {
            if crate::util::bytes_eq(scope[j].as_slice(), s) {
                assert(self.scopes@.last()@[j as int]@ == s@);
                return true;
            }
            j = j + 1;
        }
        false
    }

    /// Binds `s` in the innermost scope.
    pub fn bind_variable(&mut self, s: &[u8])
        requires
            old(self).wf(),
        ensures
            final(self).wf(),
            final(self).scopes@.len() == old(self).scopes@.len(),
            forall|i: int| 0 <= i < old(self).scopes@.len() - 1 ==> #[trigger] final(self).scopes@[i] == old(self).scopes@[i],
            final(self).scopes@.last()@.len() == old(self).scopes@.last()@.len() + 1,
            forall|j: int| 0 <= j < old(self).scopes@.last()@.len() ==> #[trigger] final(self).scopes@.last()@[j] == old(self).scopes@.last()@[j],
            final(self).scopes@.last()@.last()@ == s@,
            *final(self) == (ParserState { scopes: final(self).scopes, ..*old(self) }),
    {
        let mut top = self.scopes.pop().unwrap();
        top.push(crate::util::bytes_of(s));
        self.scopes.push(top);
    }

    pub fn has_comment_in_offset_span(&self, start_offset: SourceOffset, end_offset: SourceOffset) -> (r: bool)
        requires
            self.wf(),
        ensures
            r == exists|k: int|
                0 <= k < self.comments_hash.comment_start_offsets@.len() && start_offset
                    <= #[trigger] self.comments_hash.comment_start_offsets@[k] < end_offset,
    {
        self.comments_hash.has_comment_in_offsets(start_offset, end_offset)
    }

    pub fn has_comments_in_line(&self, start_line: LineNumber, end_line: LineNumber) -> (r: bool)
        ensures
            r == exists|i: int|
                0 <= i < self.comments_hash.other_comments@.len() && start_line
                    <= #[trigger] self.comments_hash.other_comments@[i].0 < end_line,
    {
        self.comments_hash.has_comments_in_lines(start_line, end_line)
    }

    pub fn get_line_number_for_offset(&self, source_offset: SourceOffset) -> (r: LineNumber)
        requires
            self.wf(),
        ensures
            crate::file_comments::is_line_of_offset(self.comments_hash.newline_offsets@, source_offset, r as int),
            r == crate::file_comments::newlines_before(self.comments_hash.newline_offsets@, source_offset) + 1,
    {
        self.comments_hash.get_line_number_for_offset(source_offset)
    }

    /// The render queue's tokens.
    pub fn consume_to_render_queue(self) -> (r: Vec<ConcreteLineTokenAndTargets>)
        ensures
            r@ == self.render_queue.tokens@,
    {
        self.render_queue.into_tokens()
    }

    pub fn emit_comma(&mut self)
        requires
            old(self).wf(),
        ensures
            final(self).wf(),
            final(self).target() == old(self).target().push(
                AbstractLineToken::ConcreteLineToken(ConcreteLineToken::Comma),
            ),
            final(self).same_but_target(old(self)),
    {
        self.push_concrete_token(ConcreteLineToken::Comma);
    }

    pub fn emit_after_call_chain(&mut self)
        requires
            old(self).wf(),
        ensures
            final(self).wf(),
            final(self).target() == old(self).target().push(
                AbstractLineToken::ConcreteLineToken(ConcreteLineToken::AfterCallChain),
            ),
            final(self).same_but_target(old(self)),
    {
        self.push_concrete_token(ConcreteLineToken::AfterCallChain);
    }

    pub fn emit_space(&mut self)
        requires
            old(self).wf(),
        ensures
            final(self).wf(),
            final(self).target() == old(self).target().push(
                AbstractLineToken::ConcreteLineToken(ConcreteLineToken::Space),
            ),
            final(self).same_but_target(old(self)),
    {
        self.push_concrete_token(ConcreteLineToken::Space);
    }

    pub fn emit_open_paren(&mut self)
        requires
            old(self).wf(),
        ensures
            final(self).wf(),
            final(self).target() == old(self).target().push(
                AbstractLineToken::ConcreteLineToken(ConcreteLineToken::OpenParen),
            ),
            final(self).same_but_target(old(self)),
    {
        self.push_concrete_token(ConcreteLineToken::OpenParen);
    }

    pub fn emit_comma_space(&mut self)
        requires
            old(self).wf(),
        ensures
            final(self).wf(),
            final(self).target() == old(self).target().push(
                AbstractLineToken::ConcreteLineToken(ConcreteLineToken::CommaSpace),
            ),
            final(self).same_but_target(old(self)),
    {
        self.push_concrete_token(ConcreteLineToken::CommaSpace);
    }

    pub fn emit_close_paren(&mut self)
        requires
            old(self).wf(),
        ensures
            final(self).wf(),
            final(self).target() == old(self).target().push(
                AbstractLineToken::ConcreteLineToken(ConcreteLineToken::CloseParen),
            ),
            final(self).same_but_target(old(self)),
    {
        self.push_concrete_token(ConcreteLineToken::CloseParen);
    }

    pub fn emit_slash(&mut self)
        requires
            old(self).wf(),
        ensures
            final(self).wf(),
            final(self).target() == old(self).target().push(
                AbstractLineToken::ConcreteLineToken(ConcreteLineToken::SingleSlash),
            ),
            final(self).same_but_target(old(self)),
    {
        self.push_concrete_token(ConcreteLineToken::SingleSlash);
    }

    pub fn emit_close_curly_bracket(&mut self)
        requires
            old(self).wf(),
        ensures
            final(self).wf(),
            final(self).target() == old(self).target().push(
                AbstractLineToken::ConcreteLineToken(ConcreteLineToken::CloseCurlyBracket),
            ),
            final(self).same_but_target(old(self)),
    {
        self.push_concrete_token(ConcreteLineToken::CloseCurlyBracket);
    }

    pub fn emit_open_curly_bracket(&mut self)
        requires
            old(self).wf(),
        ensures
            final(self).wf(),
            final(self).target() == old(self).target().push(
                AbstractLineToken::ConcreteLineToken(ConcreteLineToken::OpenCurlyBracket),
            ),
            final(self).same_but_target(old(self)),
    {
        self.push_concrete_token(ConcreteLineToken::OpenCurlyBracket);
    }

    pub fn emit_close_square_bracket(&mut self)
        requires
            old(self).wf(),
        ensures
            final(self).wf(),
            final(self).target() == old(self).target().push(
                AbstractLineToken::ConcreteLineToken(ConcreteLineToken::CloseSquareBracket),
            ),
            final(self).same_but_target(old(self)),
    {
        self.push_concrete_token(ConcreteLineToken::CloseSquareBracket);
    }

    pub fn emit_open_square_bracket(&mut self)
        requires
            old(self).wf(),
        ensures
            final(self).wf(),
            final(self).target() == old(self).target().push(
                AbstractLineToken::ConcreteLineToken(ConcreteLineToken::OpenSquareBracket),
            ),
            final(self).same_but_target(old(self)),
    {
        self.push_concrete_token(ConcreteLineToken::OpenSquareBracket);
    }

    pub fn emit_do_keyword(&mut self)
        requires
            old(self).wf(),
        ensures
            final(self).wf(),
            final(self).target() == old(self).target().push(
                AbstractLineToken::ConcreteLineToken(ConcreteLineToken::DoKeyword),
            ),
            final(self).same_but_target(old(self)),
    {
        self.push_concrete_token(ConcreteLineToken::DoKeyword);
    }

    pub fn emit_class_keyword(&mut self)
        requires
            old(self).wf(),
        ensures
            final(self).wf(),
            final(self).target() == old(self).target().push(
                AbstractLineToken::ConcreteLineToken(ConcreteLineToken::ClassKeyword),
            ),
            final(self).same_but_target(old(self)),
    {
        self.push_concrete_token(ConcreteLineToken::ClassKeyword);
    }

    pub fn emit_module_keyword(&mut self)
        requires
            old(self).wf(),
        ensures
            final(self).wf(),
            final(self).target() == old(self).target().push(
                AbstractLineToken::ConcreteLineToken(ConcreteLineToken::ModuleKeyword),
            ),
            final(self).same_but_target(old(self)),
    {
        self.push_concrete_token(ConcreteLineToken::ModuleKeyword);
    }

    pub fn emit_def_keyword(&mut self)
        requires
            old(self).wf(),
        ensures
            final(self).wf(),
            final(self).target() == old(self).target().push(
                AbstractLineToken::ConcreteLineToken(ConcreteLineToken::DefKeyword),
            ),
            final(self).same_but_target(old(self)),
    {
        self.push_concrete_token(ConcreteLineToken::DefKeyword);
    }

    pub fn emit_dot(&mut self)
        requires
            old(self).wf(),
        ensures
            final(self).wf(),
            final(self).target() == old(self).target().push(
                AbstractLineToken::ConcreteLineToken(ConcreteLineToken::Dot),
            ),
            final(self).same_but_target(old(self)),
    {
        self.push_concrete_token(ConcreteLineToken::Dot);
    }

    pub fn emit_lonely_operator(&mut self)
        requires
            old(self).wf(),
        ensures
            final(self).wf(),
            final(self).target() == old(self).target().push(
                AbstractLineToken::ConcreteLineToken(ConcreteLineToken::LonelyOperator),
            ),
            final(self).same_but_target(old(self)),
    {
        self.push_concrete_token(ConcreteLineToken::LonelyOperator);
    }

    pub fn emit_colon_colon(&mut self)
        requires
            old(self).wf(),
        ensures
            final(self).wf(),
            final(self).target() == old(self).target().push(
                AbstractLineToken::ConcreteLineToken(ConcreteLineToken::ColonColon),
            ),
            final(self).same_but_target(old(self)),
    {
        self.push_concrete_token(ConcreteLineToken::ColonColon);
    }

    pub fn emit_double_quote(&mut self)
        requires
            old(self).wf(),
        ensures
            final(self).wf(),
            final(self).target() == old(self).target().push(
                AbstractLineToken::ConcreteLineToken(ConcreteLineToken::DoubleQuote),
            ),
            final(self).same_but_target(old(self)),
    {
        self.push_concrete_token(ConcreteLineToken::DoubleQuote);
    }

    pub fn start_indent_for_call_chain(&mut self)
        requires
            old(self).wf(),
        ensures
            final(self).wf(),
            final(self).target() == old(self).target().push(
                AbstractLineToken::ConcreteLineToken(ConcreteLineToken::BeginCallChainIndent),
            ),
            final(self).same_but_target(old(self)),
    {
        self.push_concrete_token(ConcreteLineToken::BeginCallChainIndent);
    }

    pub fn end_indent_for_call_chain(&mut self)
        requires
            old(self).wf(),
        ensures
            final(self).wf(),
            final(self).target() == old(self).target().push(
                AbstractLineToken::ConcreteLineToken(ConcreteLineToken::EndCallChainIndent),
            ),
            final(self).same_but_target(old(self)),
    {
        self.push_concrete_token(ConcreteLineToken::EndCallChainIndent);
    }

    /// Emits a hard newline without rendering the pending heredocs.
    pub fn emit_hard_newline_in_heredoc(&mut self)
        requires
            old(self).wf(),
        ensures
            final(self).wf(),
            final(self).target() == old(self).target().push(
                AbstractLineToken::ConcreteLineToken(ConcreteLineToken::HardNewLine),
            ),
            final(self).same_but_target(old(self)),
    {
        self.push_concrete_token(ConcreteLineToken::HardNewLine);
    }

    pub fn emit_rescue(&mut self)
        requires
            old(self).wf(),
        ensures
            final(self).wf(),
            pushed_one(old(self).target(), final(self).target()),
            final(self).target().last() matches AbstractLineToken::ConcreteLineToken(
                ConcreteLineToken::Keyword { keyword },
            ) && keyword@ == seq![114u8, 101u8, 115u8, 99u8, 117u8, 101u8],
            final(self).same_but_target(old(self)),
    {
        let keyword = vec![114u8, 101u8, 115u8, 99u8, 117u8, 101u8];
        proof {
            assert(keyword@ =~= seq![114u8, 101u8, 115u8, 99u8, 117u8, 101u8]);
        }
        self.push_concrete_token(ConcreteLineToken::Keyword { keyword });
        proof {
            assert(final(self).target().take(old(self).target().len() as int) =~= old(self).target());
        }
    }

    pub fn emit_case_keyword(&mut self)
        requires
            old(self).wf(),
        ensures
            final(self).wf(),
            pushed_one(old(self).target(), final(self).target()),
            final(self).target().last() matches AbstractLineToken::ConcreteLineToken(
                ConcreteLineToken::Keyword { keyword },
            ) && keyword@ == seq![99u8, 97u8, 115u8, 101u8],
            final(self).same_but_target(old(self)),
    {
        let keyword = vec![99u8, 97u8, 115u8, 101u8];
        proof {
            assert(keyword@ =~= seq![99u8, 97u8, 115u8, 101u8]);
        }
        self.push_concrete_token(ConcreteLineToken::Keyword { keyword });
        proof {
            assert(final(self).target().take(old(self).target().len() as int) =~= old(self).target());
        }
    }

    pub fn emit_when_keyword(&mut self)
        requires
            old(self).wf(),
        ensures
            final(self).wf(),
            pushed_one(old(self).target(), final(self).target()),
            final(self).target().last() matches AbstractLineToken::ConcreteLineToken(
                ConcreteLineToken::Keyword { keyword },
            ) && keyword@ == seq![119u8, 104u8, 101u8, 110u8],
            final(self).same_but_target(old(self)),
    {
        let keyword = vec![119u8, 104u8, 101u8, 110u8];
        proof {
            assert(keyword@ =~= seq![119u8, 104u8, 101u8, 110u8]);
        }
        self.push_concrete_token(ConcreteLineToken::Keyword { keyword });
        proof {
            assert(final(self).target().take(old(self).target().len() as int) =~= old(self).target());
        }
    }

    pub fn emit_in_keyword(&mut self)
        requires
            old(self).wf(),
        ensures
            final(self).wf(),
            pushed_one(old(self).target(), final(self).target()),
            final(self).target().last() matches AbstractLineToken::ConcreteLineToken(
                ConcreteLineToken::Keyword { keyword },
            ) && keyword@ == seq![105u8, 110u8],
            final(self).same_but_target(old(self)),
    {
        let keyword = vec![105u8, 110u8];
        proof {
            assert(keyword@ =~= seq![105u8, 110u8]);
        }
        self.push_concrete_token(ConcreteLineToken::Keyword { keyword });
        proof {
            assert(final(self).target().take(old(self).target().len() as int) =~= old(self).target());
        }
    }

    pub fn emit_else(&mut self)
        requires
            old(self).wf(),
        ensures
            final(self).wf(),
            pushed_one(old(self).target(), final(self).target()),
            final(self).target().last() matches AbstractLineToken::ConcreteLineToken(
                ConcreteLineToken::ConditionalKeyword { contents },
            ) && contents@ == seq![101u8, 108u8, 115u8, 101u8],
            final(self).same_but_target(old(self)),
    {
        let contents = vec![101u8, 108u8, 115u8, 101u8];
        proof {
            assert(contents@ =~= seq![101u8, 108u8, 115u8, 101u8]);
        }
        self.push_concrete_token(ConcreteLineToken::ConditionalKeyword { contents });
        proof {
            assert(final(self).target().take(old(self).target().len() as int) =~= old(self).target());
        }
    }

    pub fn emit_keyword(&mut self, keyword: &[u8])
        requires
            old(self).wf(),
        ensures
            final(self).wf(),
            pushed_one(old(self).target(), final(self).target()),
            final(self).target().last() matches AbstractLineToken::ConcreteLineToken(
                ConcreteLineToken::Keyword { keyword: pushed },
            ) && pushed@ == keyword@,
            final(self).same_but_target(old(self)),
    {
        let keyword = crate::util::bytes_of(keyword);
        self.push_concrete_token(ConcreteLineToken::Keyword { keyword });
        proof {
            assert(final(self).target().take(old(self).target().len() as int) =~= old(self).target());
        }
    }

    pub fn emit_conditional_keyword(&mut self, contents: &[u8])
        requires
            old(self).wf(),
        ensures
            final(self).wf(),
            pushed_one(old(self).target(), final(self).target()),
            final(self).target().last() matches AbstractLineToken::ConcreteLineToken(
                ConcreteLineToken::ConditionalKeyword { contents: pushed },
            ) && pushed@ == contents@,
            final(self).same_but_target(old(self)),
    {
        let contents = crate::util::bytes_of(contents);
        self.push_concrete_token(ConcreteLineToken::ConditionalKeyword { contents });
        proof {
            assert(final(self).target().take(old(self).target().len() as int) =~= old(self).target());
        }
    }

    pub fn emit_op(&mut self, op: &[u8])
        requires
            old(self).wf(),
        ensures
            final(self).wf(),
            pushed_one(old(self).target(), final(self).target()),
            final(self).target().last() matches AbstractLineToken::ConcreteLineToken(
                ConcreteLineToken::Op { op: pushed },
            ) && pushed@ == op@,
            final(self).same_but_target(old(self)),
    {
        let op = crate::util::bytes_of(op);
        self.push_concrete_token(ConcreteLineToken::Op { op });
        proof {
            assert(final(self).target().take(old(self).target().len() as int) =~= old(self).target());
        }
    }

    pub fn emit_method_name(&mut self, name: &[u8])
        requires
            old(self).wf(),
        ensures
            final(self).wf(),
            pushed_one(old(self).target(), final(self).target()),
            final(self).target().last() matches AbstractLineToken::ConcreteLineToken(
                ConcreteLineToken::MethodName { name: pushed },
            ) && pushed@ == name@,
            final(self).same_but_target(old(self)),
    {
        let name = crate::util::bytes_of(name);
        self.push_concrete_token(ConcreteLineToken::MethodName { name });
        proof {
            assert(final(self).target().take(old(self).target().len() as int) =~= old(self).target());
        }
    }

    pub fn emit_ident(&mut self, ident: &[u8])
        requires
            old(self).wf(),
            ident@ != seq![10u8],
        ensures
            final(self).wf(),
            pushed_one(old(self).target(), final(self).target()),
            final(self).target().last() matches AbstractLineToken::ConcreteLineToken(
                ConcreteLineToken::DirectPart { part },
            ) && part@ == ident@,
            final(self).same_but_target(old(self)),
    {
        let part = crate::util::bytes_of(ident);
        self.push_concrete_token(ConcreteLineToken::DirectPart { part });
        proof {
            assert(final(self).target().take(old(self).target().len() as int) =~= old(self).target());
        }
    }

    /// Emits the data section after `__END__`.
    pub fn emit_data(&mut self, data: &[u8])
        requires
            old(self).wf(),
            data@ != seq![10u8],
        ensures
            final(self).wf(),
            pushed_one(old(self).target(), final(self).target()),
            final(self).target().last() matches AbstractLineToken::ConcreteLineToken(
                ConcreteLineToken::DirectPart { part },
            ) && part@ == data@,
            final(self).same_but_target(old(self)),
    {
        let part = crate::util::bytes_of(data);
        self.push_concrete_token(ConcreteLineToken::DirectPart { part });
        proof {
            assert(final(self).target().take(old(self).target().len() as int) =~= old(self).target());
        }
    }

    pub fn emit_heredoc_start(&mut self, symbol: &[u8], kind: HeredocKind)
        requires
            old(self).wf(),
        ensures
            final(self).wf(),
            pushed_one(old(self).target(), final(self).target()),
            final(self).target().last() matches AbstractLineToken::ConcreteLineToken(
                ConcreteLineToken::HeredocStart { kind: k, symbol: sy },
            ) && k == kind && sy@ == symbol@,
            final(self).same_but_target(old(self)),
    {
        let sy = crate::util::bytes_of(symbol);
        self.push_concrete_token(ConcreteLineToken::HeredocStart { kind, symbol: sy });
        proof {
            assert(final(self).target().take(old(self).target().len() as int) =~= old(self).target());
        }
    }

    pub fn emit_heredoc_close(&mut self, symbol: Vec<u8>)
        requires
            old(self).wf(),
        ensures
            final(self).wf(),
            final(self).target() == old(self).target().push(
                AbstractLineToken::ConcreteLineToken(ConcreteLineToken::HeredocClose { symbol }),
            ),
            final(self).same_but_target(old(self)),
    {
        self.push_concrete_token(ConcreteLineToken::HeredocClose { symbol });
    }

    /// Emits the current indentation.
    pub fn emit_indent(&mut self)
        requires
            old(self).wf(),
        ensures
            final(self).wf(),
            final(self).target() == old(self).target().push(
                AbstractLineToken::ConcreteLineToken(ConcreteLineToken::Indent { depth: old(self).spec_current_spaces() }),
            ),
            final(self).same_but_target(old(self)),
    {
        let depth = self.current_spaces();
        self.push_concrete_token(ConcreteLineToken::Indent { depth });
    }

    /// Emits an indentation that only shows when the entry is laid out over
    /// several lines.
    pub fn emit_soft_indent(&mut self)
        requires
            old(self).wf(),
            old(self).breakable_entry_stack@.len() > 0,
        ensures
            final(self).wf(),
            final(self).target() == old(self).target().push(
                AbstractLineToken::SoftIndent { depth: old(self).spec_current_spaces() },
            ),
            final(self).same_but_target(old(self)),
    {
        let depth = self.current_spaces();
        self.push_abstract_token(AbstractLineToken::SoftIndent { depth });
    }

    /// Emits string content, and moves the current line past its newlines.
    pub fn emit_string_content(&mut self, s: &[u8])
        requires
            old(self).wf(),
            old(self).current_orig_line_number + newline_count(s@) <= LineNumber::MAX,
        ensures
            final(self).wf(),
            final(self).current_orig_line_number == old(self).current_orig_line_number + newline_count(s@),
            pushed_one(old(self).target(), final(self).target()),
            final(self).target().last() matches AbstractLineToken::ConcreteLineToken(
                ConcreteLineToken::LTStringContent { content },
            ) && content@ == s@,
            final(self).lines_pushed(old(self), final(self).current_orig_line_number),
            *final(self) == (ParserState {
                current_orig_line_number: final(self).current_orig_line_number,
                render_queue: final(self).render_queue,
                breakable_entry_stack: final(self).breakable_entry_stack,
                ..*old(self)
            }),
    {
        let newline_count = count_newlines(s);
        self.current_orig_line_number = self.current_orig_line_number + newline_count;
        let line = self.current_orig_line_number;
        self.stack_push_line_number(line);
        let content = crate::util::bytes_of(s);
        let ghost mid = *self;
        self.push_concrete_token(ConcreteLineToken::LTStringContent { content });
        proof {
            assert(final(self).target().take(old(self).target().len() as int) =~= old(self).target());
            let n = old(self).breakable_entry_stack@.len();
            assert forall|i: int| 0 <= i < n implies #[trigger] old(self).breakable_entry_stack@[i].after_line_frame(
                final(self).breakable_entry_stack@[i],
                line,
            ) by {
                assert(old(self).breakable_entry_stack@[i].after_line(mid.breakable_entry_stack@[i], line));
                if i < n - 1 {
                    assert(final(self).breakable_entry_stack@[i] == mid.breakable_entry_stack@[i]);
                } else {
                    assert(mid.breakable_entry_stack@[i].same_frame(final(self).breakable_entry_stack@[i]));
                }
            }
            assert forall|i: int| 0 <= i < n - 1 implies #[trigger] final(self).breakable_entry_stack@[i].spec_tokens()
                == old(self).breakable_entry_stack@[i].spec_tokens() by {
                assert(old(self).breakable_entry_stack@[i].after_line(mid.breakable_entry_stack@[i], line));
                assert(final(self).breakable_entry_stack@[i] == mid.breakable_entry_stack@[i]);
            }
        }
    }

    /// Adds a token to the innermost breakable entry, or to the render queue.
    pub fn push_concrete_token(&mut self, t: ConcreteLineToken)
        requires
            old(self).wf(),
            !t.is_lone_newline_part(),
        ensures
            final(self).wf(),
            final(self).target() == old(self).target().push(AbstractLineToken::ConcreteLineToken(t)),
            final(self).same_but_target(old(self)),
    {
        let ghost t2 = t;
        let n = self.breakable_entry_stack.len();
        if n > 0 {
            let mut be = self.breakable_entry_stack.pop().unwrap();
            be.push(AbstractLineToken::ConcreteLineToken(t));
            self.breakable_entry_stack.push(be);
            proof {
                let s = self.breakable_entry_stack@;
                assert(s[n - 1] == be);
                assert forall|i: int| 0 <= i < n - 1 implies #[trigger] s[i] == old(self).breakable_entry_stack@[i] by {
                }
                lemma_top_kinds(s, old(self).breakable_entry_stack@);
                assert forall|i: int| 0 <= i < s.len() implies tokens_ok(#[trigger] s[i].spec_tokens()) by {
                    if i < n - 1 {
                        assert(s[i] == old(self).breakable_entry_stack@[i]);
                    } else {
                        let ts = s[i].spec_tokens();
                        let os = old(self).breakable_entry_stack@[i].spec_tokens();
                        assert(tokens_ok(os));
                        assert forall|k: int| 0 <= k < ts.len() implies adeep_ok(#[trigger] ts[k]) && ts[k].newline_safe() by {
                            if k < os.len() {
                                assert(ts[k] == os[k]);
                            }
                        }
                    }
                }
            }
        } else {
            self.render_queue.push(ConcreteLineTokenAndTargets::ConcreteLineToken(t));
            proof {
                let ts = queue_view(self.render_queue.tokens@);
                let os = queue_view(old(self).render_queue.tokens@);
                assert(ts =~= os.push(AbstractLineToken::ConcreteLineToken(t2)));
            }
        }
    }
}

/// The delimiters of the innermost breakable entry, if it is delimited.
pub open spec fn top_delims(ps: &ParserState) -> Option<crate::delimiters::DelimsView> {
    if ps.breakable_entry_stack@.len() > 0 {
        match ps.breakable_entry_stack@.last() {
            Breakable::DelimiterExpr(e) => Some(e.delims@),
            Breakable::CallChain(_) => None,
        }
    } else {
        None
    }
}

/// Whether the innermost breakable entry is a call chain the user wrote over
/// several lines, if it is a call chain.
pub open spec fn top_user_multilined(ps: &ParserState) -> Option<bool> {
    if ps.breakable_entry_stack@.len() > 0 {
        match ps.breakable_entry_stack@.last() {
            Breakable::CallChain(c) => Some(c.is_user_multilined),
            Breakable::DelimiterExpr(_) => None,
        }
    } else {
        None
    }
}

/// `t` is `outer` followed by a delimited entry with delimiters `d` that was
/// filled with `inner`. With `closing` (a collapsing newline, then the
/// pending comments and a soft indent were added), it keeps `inner` but its
/// last newline, which pending comments may precede, and ends in a soft
/// indent; all of `inner` where no comments were pending (`no_pending`).
/// Without `closing` (only the pending comments were added) it holds just
/// `inner` where no comments were pending.
pub open spec fn delimited_entry_closed(
    t: Seq<AbstractLineToken>,
    outer: Seq<AbstractLineToken>,
    inner: Seq<AbstractLineToken>,
    d: Option<crate::delimiters::DelimsView>,
    closing: bool,
    no_pending: bool,
) -> bool {
    &&& t.len() == outer.len() + 1
    &&& t.drop_last() == outer
    &&& match t.last() {
        AbstractLineToken::BreakableEntry(e) => {
            &&& d == Some(e.delims@)
            &&& closing ==> {
                &&& e.tokens@.len() > inner.len()
                &&& e.tokens@.last() is SoftIndent
                &&& inner.len() > 0 ==> e.tokens@.take(inner.len() - 1) == inner.drop_last()
            }
            &&& (closing && no_pending) ==> e.tokens@.take(inner.len() as int) == inner
            &&& (!closing && no_pending) ==> e.tokens@ == inner
        },
        _ => false,
    }
}

/// Inserting the pending comments keeps every token of the target but the
/// last one in place when the target ends in a newline inside a breakable
/// entry, and keeps the target whole when no comments are pending.
pub proof fn lemma_shift_keeps_prefix(ps: &ParserState)
    requires
        ps.wf(),
        ps.breakable_entry_stack@.len() > 0,
        ps.target().len() > 0,
        ps.target().last().spec_is_newline(),
    ensures
        ps.shifted_target().len() >= ps.target().len(),
        ps.shifted_target().take(ps.target().len() - 1) == ps.target().drop_last(),
        ps.comments_to_insert is None ==> ps.shifted_target() == ps.target(),
{
    ps.lemma_shifted_len();
    let t = ps.target();
    assert(crate::render_targets::abstract_last_break(t) == Some(t.len() - 1));
    let index = match ps.spec_prev_newline() {
        Some(i) => i,
        None => 0,
    };
    assert(t.len() - 1 <= index <= t.len());
    match ps.comments_to_insert {
        Some(c) => {
            let mid = comment_tokens(c.comments@, c.comments@.len()).map_values(
                |x: ConcreteLineToken| AbstractLineToken::ConcreteLineToken(x),
            );
            let sh = t.take(index) + mid + t.skip(index);
            assert(sh.take(t.len() - 1) =~= t.drop_last());
        },
        None => {},
    }
}

/// `t` is `outer` followed by a call chain, written over several lines by the
/// user as `u` says, that holds just `inner`.
pub open spec fn call_chain_entry_closed(
    t: Seq<AbstractLineToken>,
    outer: Seq<AbstractLineToken>,
    inner: Seq<AbstractLineToken>,
    u: Option<bool>,
) -> bool {
    &&& t.len() == outer.len() + 1
    &&& t.drop_last() == outer
    &&& match t.last() {
        AbstractLineToken::BreakableCallChainEntry(c) => u == Some(c.is_user_multilined) && c.tokens@ == inner,
        _ => false,
    }
}

/// The token that a closed breakable entry becomes in the target.
pub open spec fn breakable_token(b: Breakable) -> AbstractLineToken {
    match b {
        Breakable::DelimiterExpr(be) => AbstractLineToken::BreakableEntry(be),
        Breakable::CallChain(c) => AbstractLineToken::BreakableCallChainEntry(c),
    }
}

/// `b` is `a` with one more token at its end.
/// The pending comments once a block `b` is queued after `pending`, each
/// comment indented by `n` spaces: the block's lines follow the pending ones.
pub open spec fn queued_comments(pending: Option<BlockView>, b: BlockView, n: nat) -> BlockView {
    let spaced = b.2.map_values(|c: Seq<u8>| crate::comment_block::indented_comment(c, n));
    match pending {
        Some(o) => (o.0, o.1, o.2 + spaced),
        None => (b.0, b.1, spaced),
    }
}

/// Before moving to a blank line, the pending comments (when they hold any
/// lines) get an empty line, so that the blank line is kept.
pub open spec fn blank_line_kept(a: ParserState, m: ParserState) -> bool {
    let next = (a.current_orig_line_number + 1) as LineNumber;
    let blank = !comment_lines_of(&a).contains(next) && !a.comments_hash.lines_with_ruby@.contains(next);
    if blank && a.comments_to_insert is Some && crate::comment_block::comments_line_count(
        a.comments_to_insert->0.comments@,
    ) > 0 && a.comments_to_insert->0.span.end < LineNumber::MAX {
        let c = block_view(a.comments_to_insert->0);
        &&& crate::file_comments::opt_block_view(m.comments_to_insert) == Some(
            (c.0, (c.1 + 1) as LineNumber, c.2.push(Seq::empty())),
        )
        &&& m == ParserState { comments_to_insert: m.comments_to_insert, ..a }
    } else {
        m == a
    }
}

/// One step of winding over a line that holds only comments or is blank:
/// the blank line kept, then the move to the next line.
pub open spec fn wind_step(a: ParserState, b: ParserState) -> bool {
    exists|m: ParserState|
        #![trigger blank_line_kept(a, m)]
        blank_line_kept(a, m) && ParserState::moved_to_line(m, b, (a.current_orig_line_number + 1) as LineNumber)
}

/// `b` is `a` after `n` steps of winding, each taken while the line
/// `keeps_winding`.
pub open spec fn winds(a: ParserState, b: ParserState, max: Option<LineNumber>, n: nat) -> bool
    decreases n,
{
    if n == 0 {
        b == a
    } else {
        exists|m: ParserState|
            #![trigger wind_step(m, b)]
            winds(a, m, max, (n - 1) as nat) && m.current_orig_line_number < LineNumber::MAX && m.keeps_winding(
                m.current_orig_line_number,
                max,
            ) && wind_step(m, b)
    }
}

/// `b` is where winding from `a` up to `end_line` (when given) leads, see
/// `wind_dumping_comments_until_line`.
pub open spec fn wound_until(a: ParserState, b: ParserState, end_line: Option<LineNumber>) -> bool {
    match end_line {
        None => b == a,
        Some(e) => {
            &&& b.frame() == a.frame()
            &&& e <= a.current_orig_line_number ==> b == a
            &&& e > a.current_orig_line_number ==> {
                &&& b.current_orig_line_number > a.current_orig_line_number
                &&& !b.keeps_winding(b.current_orig_line_number, Some(e))
                &&& exists|s1: ParserState, n: nat|
                    #![trigger ParserState::moved_to_line(a, s1, (a.current_orig_line_number + 1) as LineNumber), winds(s1, b, Some(e), n)]
                    ParserState::moved_to_line(a, s1, (a.current_orig_line_number + 1) as LineNumber) && winds(
                        s1,
                        b,
                        Some(e),
                        n,
                    )
            }
        },
    }
}

/// The comments pending in `w` put at the end of a multi-line array in `c`:
/// `w2` is `w` with a newline after it when comments are pending, and the
/// comments go at the end of the innermost open entry, or before the last
/// newline of the render queue.
pub open spec fn comments_at_array_end(w: ParserState, w2: ParserState, c: ParserState) -> bool {
    let any = w.comments_to_insert is Some && w.comments_to_insert->0.comments@.len() > 0;
    let idx = if w2.breakable_entry_stack@.len() > 0 {
        w2.target().len() as int
    } else {
        match w2.spec_prev_newline() {
            Some(i) => i,
            None => 0,
        }
    };
    &&& any ==> w2.target() == w.target().push(nl_token()) && w2.same_but_target(&w)
    &&& !any ==> w2 == w
    &&& c.comments_to_insert is None
    &&& c.target() == with_comments_at(w2.target(), idx, pending_comment_tokens(w2))
    &&& c.same_but_target(&ParserState { comments_to_insert: None, ..w2 })
}

/// One more step of winding extends a winding.
proof fn lemma_winds_step(a: ParserState, m: ParserState, b: ParserState, max: Option<LineNumber>, n: nat)
    requires
        winds(a, m, max, n),
        m.current_orig_line_number < LineNumber::MAX,
        m.keeps_winding(m.current_orig_line_number, max),
        wind_step(m, b),
    ensures
        winds(a, b, max, n + 1),
{
    let n1: nat = n + 1;
    assert(((n1 - 1) as nat) == n);
    assert(winds(a, m, max, (n1 - 1) as nat));
}

/// A hard newline as an abstract token.
pub open spec fn nl_token() -> AbstractLineToken {
    AbstractLineToken::ConcreteLineToken(ConcreteLineToken::HardNewLine)
}

/// The tokens end in a newline.
pub open spec fn ends_in_newline(t: Seq<AbstractLineToken>) -> bool {
    t.len() > 0 && t.last().spec_is_newline()
}

/// `c` inserted into `a` at `k`.
pub open spec fn with_comments_at(a: Seq<AbstractLineToken>, k: int, c: Seq<AbstractLineToken>) -> Seq<
    AbstractLineToken,
> {
    a.take(k) + c + a.skip(k)
}

/// The tokens of the comments pending in `ps`.
pub open spec fn pending_comment_tokens(ps: ParserState) -> Seq<AbstractLineToken> {
    match ps.comments_to_insert {
        Some(c) => comment_tokens(c.comments@, c.comments@.len()).map_values(
            |t: ConcreteLineToken| AbstractLineToken::ConcreteLineToken(t),
        ),
        None => Seq::empty(),
    }
}

/// The tokens of the comments that were pending in `a` and are no longer
/// pending in `b`.
pub open spec fn moved_comments(a: &ParserState, b: &ParserState) -> Seq<AbstractLineToken> {
    if a.comments_to_insert is Some && b.comments_to_insert is None {
        pending_comment_tokens(*a)
    } else {
        Seq::empty()
    }
}

/// How many tokens a heredoc is rendered as (see `heredoc_rendered`).
pub open spec fn heredoc_token_len(h: HeredocString, nl: bool, raw_ctx: bool, skip: bool) -> nat {
    let body = render_segments(h.segments@, h.kind == HeredocKind::Squiggly, h.indent as nat);
    let raw = raw_ctx && h.kind != HeredocKind::Squiggly;
    (if nl {
        0nat
    } else {
        1nat
    }) + (if body.len() > 0 {
        2nat
    } else {
        0nat
    }) + (if !raw && h.kind != HeredocKind::Bare {
        1nat
    } else {
        0nat
    }) + 1 + (if skip {
        0nat
    } else {
        1nat
    })
}

/// `w` is a pending heredoc rendered after tokens that end in a newline
/// when `nl`: a newline unless `nl`; its body (raw content inside a squiggly
/// heredoc when the heredoc is not squiggly, else a direct part) and a
/// newline, when the body is not empty; the indent and the closing symbol
/// (raw content with the indent for a heredoc that is not bare, inside a
/// squiggly heredoc); and a newline unless `skip`.
pub open spec fn heredoc_rendered(h: HeredocString, w: Seq<AbstractLineToken>, nl: bool, raw_ctx: bool, skip: bool) -> bool {
    let body = render_segments(h.segments@, h.kind == HeredocKind::Squiggly, h.indent as nat);
    let raw = raw_ctx && h.kind != HeredocKind::Squiggly;
    let a: int = if nl {
        0
    } else {
        1
    };
    let b: int = if body.len() > 0 {
        2
    } else {
        0
    };
    let c: int = if !raw && h.kind != HeredocKind::Bare {
        1
    } else {
        0
    };
    let sym = crate::heredoc_string::remove_quotes(h.symbol@);
    &&& w.len() == heredoc_token_len(h, nl, raw_ctx, skip)
    &&& !nl ==> w[0] == nl_token()
    &&& body.len() > 0 ==> {
        &&& raw ==> (w[a] matches AbstractLineToken::ConcreteLineToken(
            ConcreteLineToken::RawHeredocContent { content },
        ) && content@ == body)
        &&& !raw ==> (w[a] matches AbstractLineToken::ConcreteLineToken(ConcreteLineToken::DirectPart { part })
            && part@ == body)
        &&& w[a + 1] == nl_token()
    }
    &&& c == 1 ==> w[a + b] == AbstractLineToken::ConcreteLineToken(ConcreteLineToken::Indent { depth: h.indent })
    &&& raw ==> (w[a + b + c] matches AbstractLineToken::ConcreteLineToken(
        ConcreteLineToken::RawHeredocContent { content },
    ) && content@ == if h.kind == HeredocKind::Bare {
        sym
    } else {
        crate::util::spaces(h.indent as nat) + sym
    })
    &&& !raw ==> (w[a + b + c] matches AbstractLineToken::ConcreteLineToken(ConcreteLineToken::HeredocClose { symbol })
        && symbol@ == sym)
    &&& !skip ==> w[a + b + c + 1] == nl_token()
}

/// `w` is the pending heredocs `hs` rendered one after another, after tokens
/// that end in a newline when `nl0`.
pub open spec fn heredocs_rendered(hs: Seq<HeredocString>, w: Seq<AbstractLineToken>, nl0: bool, raw_ctx: bool, skip: bool) -> bool
    decreases hs.len(),
{
    if hs.len() == 0 {
        w.len() == 0
    } else {
        let nl = if hs.len() == 1 {
            nl0
        } else {
            !skip
        };
        let c = heredoc_token_len(hs.last(), nl, raw_ctx, skip) as int;
        &&& w.len() >= c
        &&& heredocs_rendered(hs.drop_last(), w.take(w.len() - c), nl0, raw_ctx, skip)
        &&& heredoc_rendered(hs.last(), w.skip(w.len() - c), nl, raw_ctx, skip)
    }
}

/// Rendered heredocs end in a newline exactly when not `skip`.
proof fn lemma_heredocs_rendered_last(hs: Seq<HeredocString>, w: Seq<AbstractLineToken>, nl0: bool, raw_ctx: bool, skip: bool)
    requires
        heredocs_rendered(hs, w, nl0, raw_ctx, skip),
        hs.len() > 0,
    ensures
        w.len() > 0,
        ends_in_newline(w) == !skip,
{
    let nl = if hs.len() == 1 {
        nl0
    } else {
        !skip
    };
    let c = heredoc_token_len(hs.last(), nl, raw_ctx, skip) as int;
    let u = w.skip(w.len() - c);
    assert(u.last() == w.last());
}

/// With nothing inserted, the tokens are as they were.
proof fn lemma_with_no_comments(a: Seq<AbstractLineToken>, k: int)
    requires
        0 <= k <= a.len(),
    ensures
        with_comments_at(a, k, Seq::empty()) == a,
{
    assert(a.take(k) + Seq::<AbstractLineToken>::empty() + a.skip(k) =~= a);
}

/// Inserted before the last token, comments leave the last token last.
proof fn lemma_with_comments_last(a: Seq<AbstractLineToken>, k: int, c: Seq<AbstractLineToken>)
    requires
        0 <= k < a.len(),
    ensures
        with_comments_at(a, k, c).len() > 0,
        with_comments_at(a, k, c).last() == a.last(),
{
    let r = with_comments_at(a, k, c);
    assert(r[r.len() - 1] == a.skip(k)[a.skip(k).len() - 1]);
}

/// A token pushed after comments were inserted is pushed after the tokens.
proof fn lemma_with_comments_push(a: Seq<AbstractLineToken>, k: int, c: Seq<AbstractLineToken>, x: AbstractLineToken)
    requires
        0 <= k <= a.len(),
    ensures
        with_comments_at(a, k, c).push(x) == with_comments_at(a.push(x), k, c),
{
    assert(a.push(x).take(k) =~= a.take(k));
    assert(a.push(x).skip(k) =~= a.skip(k).push(x));
    assert(with_comments_at(a, k, c).push(x) =~= with_comments_at(a.push(x), k, c));
}

pub open spec fn pushed_one(a: Seq<AbstractLineToken>, b: Seq<AbstractLineToken>) -> bool {
    b.len() == a.len() + 1 && b.take(a.len() as int) == a
}

/// The bytes of a keyword token that was pushed last.
pub open spec fn last_keyword(b: Seq<AbstractLineToken>) -> Option<Seq<u8>> {
    if b.len() > 0 {
        match b.last() {
            AbstractLineToken::ConcreteLineToken(ConcreteLineToken::Keyword { keyword }) => Some(keyword@),
            _ => None,
        }
    } else {
        None
    }
}

/// Which breakable entries are delimited expressions (the others are call
/// chains).
pub open spec fn stack_kinds(st: Seq<Breakable>) -> Seq<bool> {
    st.map_values(|b: Breakable| b is DelimiterExpr)
}

/// Entries that pairwise keep their kind keep the kinds of the stack.
pub proof fn lemma_stack_kinds(a: Seq<Breakable>, b: Seq<Breakable>)
    requires
        a.len() == b.len(),
        forall|i: int| 0 <= i < a.len() ==> (#[trigger] a[i] is DelimiterExpr) == (b[i] is DelimiterExpr),
    ensures
        stack_kinds(a) == stack_kinds(b),
{
    assert(stack_kinds(a) =~= stack_kinds(b));
}

/// Replacing the innermost entry by one of the same kind keeps the kinds.
pub proof fn lemma_top_kinds(a: Seq<Breakable>, b: Seq<Breakable>)
    requires
        a.len() == b.len(),
        forall|i: int| 0 <= i < a.len() - 1 ==> #[trigger] a[i] == b[i],
        a.len() > 0 ==> b[a.len() - 1].same_frame(a[a.len() - 1]),
    ensures
        stack_kinds(a) == stack_kinds(b),
{
    assert forall|i: int| 0 <= i < a.len() implies (#[trigger] a[i] is DelimiterExpr) == (b[i] is DelimiterExpr) by {
        if i < a.len() - 1 {
            assert(a[i] == b[i]);
        }
    }
    lemma_stack_kinds(a, b);
}

pub proof fn lemma_kinds(st: Seq<Breakable>)
    ensures
        stack_kinds(st).len() == st.len(),
        forall|i: int| 0 <= i < st.len() ==> #[trigger] stack_kinds(st)[i] == (st[i] is DelimiterExpr),
{
}

/// After an entry was opened and closed again, the kinds of the open entries
/// are as they were.
pub proof fn lemma_close_kinds(a: Seq<Breakable>, mid: Seq<Breakable>, b: Seq<Breakable>, x: bool)
    requires
        a.len() == b.len(),
        mid.len() == b.len() + 1,
        stack_kinds(mid) == stack_kinds(b).push(x),
        forall|i: int| 0 <= i < a.len() - 1 ==> #[trigger] a[i] == mid[i],
        a.len() > 0 ==> mid[a.len() - 1].same_frame(a.last()),
    ensures
        stack_kinds(a) == stack_kinds(b),
{
    assert forall|i: int| 0 <= i < a.len() implies (#[trigger] a[i] is DelimiterExpr) == (b[i] is DelimiterExpr) by {
        assert(stack_kinds(mid)[i] == stack_kinds(b)[i]);
        if i < a.len() - 1 {
            assert(a[i] == mid[i]);
        } else {
            assert(mid[i].same_frame(a[i]));
        }
    }
    lemma_stack_kinds(a, b);
}

/// A heredoc segment as whether it is raw, and its bytes.
pub open spec fn segment_views(s: Seq<HeredocSegment>) -> Seq<(bool, Seq<u8>)> {
    s.map_values(
        |g: HeredocSegment|
            match g {
                HeredocSegment::Normal(c) => (false, c@),
                HeredocSegment::Raw(c) => (true, c@),
            },
    )
}

/// The segments finished so far and the normal bytes gathered since: raw
/// heredoc content is a segment of its own, the bytes of other tokens run
/// together.
pub open spec fn segment_scan(toks: Seq<ConcreteLineToken>) -> (Seq<(bool, Seq<u8>)>, Seq<u8>)
    decreases toks.len(),
{
    if toks.len() == 0 {
        (Seq::empty(), Seq::empty())
    } else {
        let prev = segment_scan(toks.drop_last());
        match toks.last() {
            ConcreteLineToken::RawHeredocContent { content } => ((if prev.1.len() > 0 {
                prev.0.push((false, prev.1))
            } else {
                prev.0
            }).push((true, content@)), Seq::empty()),
            t => (prev.0, prev.1 + t.ruby()),
        }
    }
}

/// The segments of a token sequence: see `segment_scan`.
pub open spec fn segments_of(toks: Seq<ConcreteLineToken>) -> Seq<(bool, Seq<u8>)> {
    let s = segment_scan(toks);
    if s.1.len() > 0 {
        s.0.push((false, s.1))
    } else {
        s.0
    }
}

/// Once on a line, with the comments through it taken out, moving to the
/// same line again inserts no blank line.
pub proof fn law_same_line_inserts_no_newline(ps: ParserState, line: LineNumber)
    requires
        ps.current_orig_line_number == line,
        forall|i: int|
            0 <= i < ps.comments_hash.comments_view().len() ==> #[trigger] ps.comments_hash.comments_view()[i].0
                > line,
    ensures
        !ps.on_line_inserts_newline(line),
{
    let cs = ps.comments_hash.comments_view();
    if cs.len() > 0 {
        assert(cs[0].0 > line);
    }
}

/// The lines of the comments after the first block.
pub open spec fn comment_lines_of(ps: &ParserState) -> Seq<LineNumber> {
    crate::file_comments::comment_lines(ps.comments_hash.other_comments@)
}

/// The current line once a comment block was pushed: a block of several
/// lines moves it past its lines (saturating), unless comments are
/// suppressed.
pub open spec fn line_after_block(cur: LineNumber, b: BlockView, suppressed: bool) -> LineNumber {
    if suppressed || b.0 + 1 == b.1 {
        cur
    } else if cur + view_line_count(b.2) > LineNumber::MAX {
        LineNumber::MAX
    } else {
        (cur + view_line_count(b.2)) as LineNumber
    }
}

/// The number of newlines in `s`.
fn count_newlines(s: &[u8]) -> (r: u64)
    ensures
        r == newline_count(s@),
{
    let mut n: u64 = 0;
    let mut i: usize = 0;
    while i < s.len()
        invariant
            i <= s@.len(),
            n == newline_count(s@.take(i as int)),
            n <= i,
        decreases s@.len() - i,
    {
        assert(s@.take(i + 1).drop_last() =~= s@.take(i as int));
        if s[i] == 10u8 {
            n = n + 1;
        }
        i = i + 1;
    }
    assert(s@.take(i as int) =~= s@);
    n
}

/// Plain tokens are safe to ask whether they are newlines.
pub open spec fn plain_ok(t: ConcreteLineToken) -> bool {
    !t.is_lone_newline_part()
}

/// Seen as an abstract token, a token or target is a newline, an indent, or
/// safe to ask, exactly when it was before.
pub proof fn lemma_abstract_of(t: ConcreteLineTokenAndTargets)
    ensures
        abstract_of(t).spec_is_newline() == t.spec_is_newline(),
        abstract_of(t).spec_is_indent() == t.spec_is_indent(),
        abstract_of(t).newline_safe() == t.newline_safe(),
{
}

/// Tokens that are all fine stay fine when more fine tokens are inserted.
pub proof fn lemma_tokens_ok_insert(a: Seq<AbstractLineToken>, b: Seq<AbstractLineToken>, i: int)
    requires
        tokens_ok(a),
        tokens_ok(b),
        0 <= i <= a.len(),
    ensures
        tokens_ok(a.take(i) + b + a.skip(i)),
        tokens_ok(a.push(b[0])) || b.len() == 0,
{
    let c = a.take(i) + b + a.skip(i);
    assert forall|k: int| 0 <= k < c.len() implies adeep_ok(#[trigger] c[k]) && c[k].newline_safe() by {
        if k < i {
            assert(c[k] == a[k]);
        } else if k < i + b.len() {
            assert(c[k] == b[k - i]);
        } else {
            assert(c[k] == a[k - b.len()]);
        }
    }
    if b.len() > 0 {
        let d = a.push(b[0]);
        assert forall|k: int| 0 <= k < d.len() implies adeep_ok(#[trigger] d[k]) && d[k].newline_safe() by {
            if k < a.len() {
                assert(d[k] == a[k]);
            }
        }
    }
}

/// Whether going from line `from` to line `to` skips at least one line, so
/// that a blank line stands between them.
pub open spec fn requires_newline(to: int, from: int) -> bool {
    to > from && to - from >= 2
}

pub fn line_difference_requires_newline(to_line: LineNumber, from_line: LineNumber) -> (r: bool)
    ensures
        r == requires_newline(to_line as int, from_line as int),
{
    (to_line > from_line) && (to_line - from_line >= 2)
}

} // verus!
