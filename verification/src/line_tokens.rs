use crate::heredoc_string::{remove_quotes, render_segments, HeredocKind, HeredocString};
use crate::render_queue_writer::MAX_LINE_LENGTH;
use crate::render_targets::{BreakableCallChainEntry, BreakableEntry};
use crate::types::ColNumber;
use crate::util::{bytes_of, indent_vec, spaces};
use vstd::prelude::*;

verus! {

pub fn cltats_hard_newline() -> (r: ConcreteLineTokenAndTargets)
    ensures
        r == ConcreteLineTokenAndTargets::ConcreteLineToken(ConcreteLineToken::HardNewLine),
{
    ConcreteLineTokenAndTargets::ConcreteLineToken(ConcreteLineToken::HardNewLine)
}

pub fn clats_direct_part(part: Vec<u8>) -> (r: ConcreteLineTokenAndTargets)
    ensures
        r == ConcreteLineTokenAndTargets::ConcreteLineToken(ConcreteLineToken::DirectPart { part }),
{
    ConcreteLineTokenAndTargets::ConcreteLineToken(ConcreteLineToken::DirectPart { part })
}

pub fn clats_heredoc_close(symbol: Vec<u8>) -> (r: ConcreteLineTokenAndTargets)
    ensures
        r == ConcreteLineTokenAndTargets::ConcreteLineToken(ConcreteLineToken::HeredocClose { symbol }),
{
    ConcreteLineTokenAndTargets::ConcreteLineToken(ConcreteLineToken::HeredocClose { symbol })
}

pub fn clats_indent(depth: ColNumber) -> (r: ConcreteLineTokenAndTargets)
    ensures
        r == ConcreteLineTokenAndTargets::ConcreteLineToken(ConcreteLineToken::Indent { depth }),
{
    ConcreteLineTokenAndTargets::ConcreteLineToken(ConcreteLineToken::Indent { depth })
}

// represents something that will actually end up as a ruby token, as opposed to
// something that has to be transformed to become a ruby token
#[derive(Debug, PartialEq, Eq)]
pub enum ConcreteLineToken {
    HardNewLine,
    Indent { depth: u32 },
    Keyword { keyword: Vec<u8> },
    DefKeyword,
    ClassKeyword,
    ModuleKeyword,
    DoKeyword,
    ConditionalKeyword { contents: Vec<u8> },
    DirectPart { part: Vec<u8> },
    MethodName { name: Vec<u8> },
    CommaSpace,
    Comma,
    Space,
    Dot,
    ColonColon,
    LonelyOperator,
    OpenSquareBracket,
    CloseSquareBracket,
    OpenCurlyBracket,
    CloseCurlyBracket,
    OpenParen,
    CloseParen,
    Op { op: Vec<u8> },
    DoubleQuote,
    LTStringContent { content: Vec<u8> },
    SingleSlash,
    Comment { contents: Vec<u8> },
    Delim { contents: Vec<u8> },
    End,
    HeredocClose { symbol: Vec<u8> },
    // These are "magic" tokens. They have no concrete representation,
    // but they're meaningful inside of the render queue
    AfterCallChain,
    BeginCallChainIndent,
    EndCallChainIndent,
    HeredocStart { kind: HeredocKind, symbol: Vec<u8> },
    RawHeredocContent { content: Vec<u8> },
}

/// Two tokens that are the same but for which vectors hold their bytes.
pub open spec fn tok_eq(a: ConcreteLineToken, b: ConcreteLineToken) -> bool {
    match (a, b) {
        (ConcreteLineToken::Keyword { keyword: x }, ConcreteLineToken::Keyword { keyword: y }) => x@ == y@,
        (
            ConcreteLineToken::ConditionalKeyword { contents: x },
            ConcreteLineToken::ConditionalKeyword { contents: y },
        ) => x@ == y@,
        (ConcreteLineToken::DirectPart { part: x }, ConcreteLineToken::DirectPart { part: y }) => x@ == y@,
        (ConcreteLineToken::MethodName { name: x }, ConcreteLineToken::MethodName { name: y }) => x@ == y@,
        (ConcreteLineToken::Op { op: x }, ConcreteLineToken::Op { op: y }) => x@ == y@,
        (ConcreteLineToken::LTStringContent { content: x }, ConcreteLineToken::LTStringContent { content: y }) => x@
            == y@,
        (ConcreteLineToken::Comment { contents: x }, ConcreteLineToken::Comment { contents: y }) => x@ == y@,
        (ConcreteLineToken::Delim { contents: x }, ConcreteLineToken::Delim { contents: y }) => x@ == y@,
        (ConcreteLineToken::HeredocClose { symbol: x }, ConcreteLineToken::HeredocClose { symbol: y }) => x@ == y@,
        (
            ConcreteLineToken::HeredocStart { kind: k1, symbol: x },
            ConcreteLineToken::HeredocStart { kind: k2, symbol: y },
        ) => k1 == k2 && x@ == y@,
        (
            ConcreteLineToken::RawHeredocContent { content: x },
            ConcreteLineToken::RawHeredocContent { content: y },
        ) => x@ == y@,
        _ => a == b,
    }
}

/// Two sequences of tokens that are the same but for which vectors hold
/// their bytes.
pub open spec fn toks_eq(a: Seq<ConcreteLineToken>, b: Seq<ConcreteLineToken>) -> bool {
    a.len() == b.len() && forall|i: int| 0 <= i < a.len() ==> #[trigger] tok_eq(a[i], b[i])
}

/// Sameness of tokens up to their vectors is transitive.
pub proof fn lemma_tok_eq2(a: ConcreteLineToken, b: ConcreteLineToken, c: ConcreteLineToken)
    requires
        tok_eq(a, b),
        tok_eq(c, b),
    ensures
        tok_eq(a, c),
{
}

/// Tokens that are the same but for their vectors render alike and answer
/// every question about their kind and bytes alike.
pub proof fn lemma_tok_eq(a: ConcreteLineToken, b: ConcreteLineToken)
    requires
        tok_eq(a, b),
    ensures
        tok_eq(b, a),
        a.ruby() == b.ruby(),
        a.spec_is_garbage() == b.spec_is_garbage(),
        a.spec_is_block_closing() == b.spec_is_block_closing(),
        a.spec_is_conditional_spaced() == b.spec_is_conditional_spaced(),
        a is HardNewLine <==> b is HardNewLine,
        a is Indent <==> b is Indent,
        a is End <==> b is End,
        a is AfterCallChain <==> b is AfterCallChain,
        a is DefKeyword <==> b is DefKeyword,
        a is Space <==> b is Space,
        a is Dot <==> b is Dot,
        a is ClassKeyword <==> b is ClassKeyword,
        a is ModuleKeyword <==> b is ModuleKeyword,
        a is DoKeyword <==> b is DoKeyword,
        a is Comment <==> b is Comment,
        a is Delim <==> b is Delim,
        a is DirectPart <==> b is DirectPart,
        a is MethodName <==> b is MethodName,
        a is HeredocClose <==> b is HeredocClose,
        a is HeredocStart <==> b is HeredocStart,
        a is ConditionalKeyword <==> b is ConditionalKeyword,
        a is BeginCallChainIndent <==> b is BeginCallChainIndent,
        a is EndCallChainIndent <==> b is EndCallChainIndent,
{
}

impl ConcreteLineToken {
    /// The bytes this token renders to.
    pub open spec fn ruby(&self) -> Seq<u8> {
        match self {
            ConcreteLineToken::HardNewLine => seq![10u8],
            ConcreteLineToken::Indent { depth } => spaces(*depth as nat),
            ConcreteLineToken::Keyword { keyword } => keyword@,
            ConcreteLineToken::ConditionalKeyword { contents } => contents@,
            ConcreteLineToken::DoKeyword => seq![100u8, 111u8],
            ConcreteLineToken::ClassKeyword => seq![99u8, 108u8, 97u8, 115u8, 115u8],
            ConcreteLineToken::DefKeyword => seq![100u8, 101u8, 102u8],
            ConcreteLineToken::ModuleKeyword => seq![109u8, 111u8, 100u8, 117u8, 108u8, 101u8],
            ConcreteLineToken::DirectPart { part } => part@,
            ConcreteLineToken::MethodName { name } => name@,
            ConcreteLineToken::CommaSpace => seq![44u8, 32u8],
            ConcreteLineToken::Comma => seq![44u8],
            ConcreteLineToken::Space => seq![32u8],
            ConcreteLineToken::Dot => seq![46u8],
            ConcreteLineToken::ColonColon => seq![58u8, 58u8],
            ConcreteLineToken::LonelyOperator => seq![38u8, 46u8],
            ConcreteLineToken::OpenSquareBracket => seq![91u8],
            ConcreteLineToken::CloseSquareBracket => seq![93u8],
            ConcreteLineToken::OpenCurlyBracket => seq![123u8],
            ConcreteLineToken::CloseCurlyBracket => seq![125u8],
            ConcreteLineToken::OpenParen => seq![40u8],
            ConcreteLineToken::CloseParen => seq![41u8],
            ConcreteLineToken::Op { op } => op@,
            ConcreteLineToken::DoubleQuote => seq![34u8],
            ConcreteLineToken::LTStringContent { content } => content@,
            ConcreteLineToken::SingleSlash => seq![92u8],
            ConcreteLineToken::Comment { contents } => contents@,
            ConcreteLineToken::Delim { contents } => contents@,
            ConcreteLineToken::End => seq![101u8, 110u8, 100u8],
            ConcreteLineToken::HeredocClose { symbol } => symbol@,
            ConcreteLineToken::HeredocStart { symbol, .. } => symbol@,
            ConcreteLineToken::RawHeredocContent { content } => content@,
            ConcreteLineToken::AfterCallChain => Seq::empty(),
            ConcreteLineToken::BeginCallChainIndent => Seq::empty(),
            ConcreteLineToken::EndCallChainIndent => Seq::empty(),
        }
    }

    /// A direct part that is exactly one newline: such a token must never be
    /// asked whether it is a newline.
    pub open spec fn is_lone_newline_part(&self) -> bool {
        self matches ConcreteLineToken::DirectPart { part } && part@ == seq![10u8]
    }

    pub open spec fn spec_is_block_closing(&self) -> bool {
        match self {
            ConcreteLineToken::End => true,
            ConcreteLineToken::DirectPart { part } => part@ == seq![125u8] || part@ == seq![93u8]
                || part@ == seq![41u8],
            ConcreteLineToken::Delim { contents } => contents@ == seq![125u8] || contents@ == seq![
                93u8,
            ] || contents@ == seq![41u8],
            _ => false,
        }
    }

    pub open spec fn spec_is_conditional_spaced(&self) -> bool {
        match self {
            ConcreteLineToken::ConditionalKeyword { contents } => !(contents@ == seq![
                101u8,
                108u8,
                115u8,
                101u8,
            ] || contents@ == seq![101u8, 108u8, 115u8, 105u8, 102u8]),
            ConcreteLineToken::Dot => false,
            ConcreteLineToken::LonelyOperator => false,
            ConcreteLineToken::DirectPart { part } => part@ != seq![38u8, 46u8],
            _ => true,
        }
    }

    pub open spec fn spec_is_garbage(&self) -> bool {
        match self {
            ConcreteLineToken::DirectPart { part } => part@.len() == 0,
            ConcreteLineToken::Space => true,
            _ => false,
        }
    }

    /// The bytes the token renders to.
    pub fn into_ruby(self) -> (r: Vec<u8>)
        ensures
            r@ == self.ruby(),
    {
        match self {
            Self::HardNewLine => vec![10u8],
            Self::Indent { depth } => indent_vec(depth as usize),
            Self::Keyword { keyword } => keyword,
            Self::ConditionalKeyword { contents } => contents,
            Self::DoKeyword => vec![100u8, 111u8],
            Self::ClassKeyword => vec![99u8, 108u8, 97u8, 115u8, 115u8],
            Self::DefKeyword => vec![100u8, 101u8, 102u8],
            Self::ModuleKeyword => vec![109u8, 111u8, 100u8, 117u8, 108u8, 101u8],
            Self::DirectPart { part } => part,
            Self::MethodName { name } => name,
            Self::CommaSpace => vec![44u8, 32u8],
            Self::Comma => vec![44u8],
            Self::Space => vec![32u8],
            Self::Dot => vec![46u8],
            Self::ColonColon => vec![58u8, 58u8],
            Self::LonelyOperator => vec![38u8, 46u8],
            Self::OpenSquareBracket => vec![91u8],
            Self::CloseSquareBracket => vec![93u8],
            Self::OpenCurlyBracket => vec![123u8],
            Self::CloseCurlyBracket => vec![125u8],
            Self::OpenParen => vec![40u8],
            Self::CloseParen => vec![41u8],
            Self::Op { op } => op,
            Self::DoubleQuote => vec![34u8],
            Self::LTStringContent { content } => content,
            Self::SingleSlash => vec![92u8],
            Self::Comment { contents } => contents,
            Self::Delim { contents } => contents,
            Self::End => vec![101u8, 110u8, 100u8],
            Self::HeredocClose { symbol } => symbol,
            Self::HeredocStart { symbol, .. } => symbol,
            Self::RawHeredocContent { content } => content,
            // no-op, this is purely semantic information
            // for the render queue
            Self::AfterCallChain | Self::BeginCallChainIndent | Self::EndCallChainIndent => {
                Vec::new()
            },
        }
    }

    /// The length of the token's string representation
    pub fn len(&self) -> (r: usize)
        ensures
            r == self.ruby().len(),
    {
        match self {
            Self::AfterCallChain | Self::BeginCallChainIndent | Self::EndCallChainIndent => 0,
            Self::HeredocStart { symbol, .. } => symbol.len(),
            Self::Delim { contents } => contents.len(),
            Self::Indent { depth } => *depth as usize,
            Self::Keyword { keyword } => keyword.len(),
            Self::ConditionalKeyword { contents } => contents.len(),
            Self::Op { op } => op.len(),
            Self::MethodName { name } => name.len(),
            Self::DirectPart { part } => part.len(),
            Self::LTStringContent { content } => content.len(),
            Self::Comment { contents } => contents.len(),
            Self::HeredocClose { symbol } => symbol.len(),
            Self::RawHeredocContent { content } => content.len(),
            Self::HardNewLine | Self::Comma | Self::Space | Self::Dot | Self::OpenSquareBracket
            | Self::CloseSquareBracket | Self::OpenCurlyBracket | Self::CloseCurlyBracket
            | Self::OpenParen | Self::CloseParen | Self::SingleSlash | Self::DoubleQuote => 1,
            Self::DoKeyword | Self::CommaSpace | Self::LonelyOperator | Self::ColonColon => 2,
            Self::DefKeyword | Self::End => 3,
            Self::ClassKeyword => 5,
            Self::ModuleKeyword => 6,
        }
    }

    fn is_block_closing_token(&self) -> (r: bool)
        ensures
            r == self.spec_is_block_closing(),
    {
        match self {
            Self::End => true,
            Self::DirectPart { part } => is_one_of_closers(part.as_slice()),
            Self::Delim { contents } => is_one_of_closers(contents.as_slice()),
            _ => false,
        }
    }

    fn is_conditional_spaced_token(&self) -> (r: bool)
        ensures
            r == self.spec_is_conditional_spaced(),
    {
        match self {
            Self::ConditionalKeyword { contents } => {
                let c = contents.as_slice();
                let is_else = c.len() == 4 && c[0] == 101u8 && c[1] == 108u8 && c[2] == 115u8 && c[3]
                    == 101u8;
                let is_elsif = c.len() == 5 && c[0] == 101u8 && c[1] == 108u8 && c[2] == 115u8
                    && c[3] == 105u8 && c[4] == 102u8;
                proof {
                    if c@ == seq![101u8, 108u8, 115u8, 101u8] {
                        assert(c@[3] == 101u8);
                    }
                    if c@ == seq![101u8, 108u8, 115u8, 105u8, 102u8] {
                        assert(c@[4] == 102u8);
                    }
                    if is_else {
                        assert(c@ =~= seq![101u8, 108u8, 115u8, 101u8]);
                    }
                    if is_elsif {
                        assert(c@ =~= seq![101u8, 108u8, 115u8, 105u8, 102u8]);
                    }
                }
                !(is_else || is_elsif)
            },
            Self::Dot | Self::LonelyOperator => false,
            Self::DirectPart { part } => {
                let p = part.as_slice();
                let is_lonely = p.len() == 2 && p[0] == 38u8 && p[1] == 46u8;
                proof {
                    if p@ == seq![38u8, 46u8] {
                        assert(p@[1] == 46u8);
                    }
                    if is_lonely {
                        assert(p@ =~= seq![38u8, 46u8]);
                    }
                }
                !is_lonely
            },
            _ => true,
        }
    }

    pub fn is_single_line_breakable_garbage(&self) -> (r: bool)
        ensures
            r == self.spec_is_garbage(),
    {
        match self {
            Self::DirectPart { part } => part.len() == 0,
            Self::Space => true,
            _ => false,
        }
    }

    pub fn is_newline(&self) -> (r: bool)
        requires
            !self.is_lone_newline_part(),
        ensures
            r == (*self is HardNewLine),
    {
        match self {
            Self::HardNewLine => true,
            _ => false,
        }
    }

    pub fn is_indent(&self) -> (r: bool)
        ensures
            r == (*self is Indent),
    {
        matches!(self, ConcreteLineToken::Indent { .. })
    }

    pub fn is_in_need_of_a_trailing_blankline(&self) -> (r: bool)
        ensures
            r == (self.spec_is_conditional_spaced() && !self.spec_is_block_closing()),
    {
        self.is_conditional_spaced_token() && !self.is_block_closing_token()
    }
}

/// Whether `b` is exactly one of `}`, `]`, `)`.
fn is_one_of_closers(b: &[u8]) -> (r: bool)
    ensures
        r == (b@ == seq![125u8] || b@ == seq![93u8] || b@ == seq![41u8]),
{
    let r = b.len() == 1 && (b[0] == 125u8 || b[0] == 93u8 || b[0] == 41u8);
    proof {
        if b@ == seq![125u8] || b@ == seq![93u8] || b@ == seq![41u8] {
            assert(b@.len() == 1);
        }
        if r {
            assert(b@ =~= seq![b@[0]]);
        }
    }
    r
}

#[derive(Debug)]
pub enum ConcreteLineTokenAndTargets {
    ConcreteLineToken(ConcreteLineToken),
    BreakableEntry(BreakableEntry),
    BreakableCallChainEntry(BreakableCallChainEntry),
}

impl ConcreteLineTokenAndTargets {
    pub open spec fn spec_is_newline(&self) -> bool {
        self matches ConcreteLineTokenAndTargets::ConcreteLineToken(ConcreteLineToken::HardNewLine)
    }

    pub open spec fn spec_is_indent(&self) -> bool {
        self matches ConcreteLineTokenAndTargets::ConcreteLineToken(ConcreteLineToken::Indent { .. })
    }

    /// Whether asking this token if it is a newline is safe.
    pub open spec fn newline_safe(&self) -> bool {
        self matches ConcreteLineTokenAndTargets::ConcreteLineToken(clt) ==> !clt.is_lone_newline_part()
    }

    pub fn is_newline(&self) -> (r: bool)
        requires
            self.newline_safe(),
        ensures
            r == self.spec_is_newline(),
    {
        match self {
            Self::ConcreteLineToken(clt) => clt.is_newline(),
            _ => false,
        }
    }

    pub fn is_indent(&self) -> (r: bool)
        ensures
            r == self.spec_is_indent(),
    {
        match self {
            Self::ConcreteLineToken(clt) => clt.is_indent(),
            _ => false,
        }
    }

    /// The same token as an abstract token.
    pub fn into_abstract(self) -> (r: AbstractLineToken)
        ensures
            r == abstract_of(self),
    {
        match self {
            ConcreteLineTokenAndTargets::BreakableEntry(be) => AbstractLineToken::BreakableEntry(be),
            ConcreteLineTokenAndTargets::ConcreteLineToken(clt) => AbstractLineToken::ConcreteLineToken(
                clt,
            ),
            ConcreteLineTokenAndTargets::BreakableCallChainEntry(bcce) => {
                AbstractLineToken::BreakableCallChainEntry(bcce)
            },
        }
    }
}

/// A concrete token or target, as an abstract token.
pub open spec fn abstract_of(t: ConcreteLineTokenAndTargets) -> AbstractLineToken {
    match t {
        ConcreteLineTokenAndTargets::BreakableEntry(be) => AbstractLineToken::BreakableEntry(be),
        ConcreteLineTokenAndTargets::ConcreteLineToken(clt) => AbstractLineToken::ConcreteLineToken(clt),
        ConcreteLineTokenAndTargets::BreakableCallChainEntry(bcce) => AbstractLineToken::BreakableCallChainEntry(
            bcce,
        ),
    }
}

#[derive(Debug)]
pub enum AbstractLineToken {
    ConcreteLineToken(ConcreteLineToken),
    CollapsingNewLine(Option<Vec<HeredocString>>),
    SoftNewline(Option<Vec<HeredocString>>),
    SoftIndent { depth: u32 },
    BreakableEntry(BreakableEntry),
    BreakableCallChainEntry(BreakableCallChainEntry),
}

/// `n`, or `usize::MAX` where `n` is larger.
pub open spec fn sat(n: nat) -> nat {
    if n > usize::MAX {
        usize::MAX as nat
    } else {
        n
    }
}

/// The single-line length of an abstract token (heredocs count as too long).
pub open spec fn token_len(t: AbstractLineToken) -> nat
    decreases t,
{
    match t {
        AbstractLineToken::CollapsingNewLine(h) => if h is Some {
            (MAX_LINE_LENGTH + 1) as nat
        } else {
            0
        },
        AbstractLineToken::SoftNewline(h) => if h is Some {
            (MAX_LINE_LENGTH + 1) as nat
        } else {
            1
        },
        AbstractLineToken::SoftIndent { .. } => 0,
        AbstractLineToken::ConcreteLineToken(clt) => clt.ruby().len(),
        AbstractLineToken::BreakableEntry(be) => tokens_len(be.tokens@) + be.delims@.0.len()
            + be.delims@.1.len(),
        AbstractLineToken::BreakableCallChainEntry(bcce) => tokens_len(bcce.tokens@),
    }
}

/// The length of what the concrete tokens among `w` render to.
pub open spec fn written_len(w: Seq<ConcreteLineTokenAndTargets>) -> nat
    decreases w.len(),
{
    if w.len() == 0 {
        0
    } else {
        written_len(w.drop_last()) + match w.last() {
            ConcreteLineTokenAndTargets::ConcreteLineToken(c) => c.ruby().len(),
            _ => 0,
        }
    }
}

/// What a concrete token renders to fits in a `usize` length.
proof fn lemma_ruby_len_bounded(c: ConcreteLineToken)
    ensures
        c.ruby().len() <= usize::MAX,
{
    broadcast use vstd::std_specs::vec::axiom_spec_len;
    match c {
        ConcreteLineToken::Keyword { keyword } => assert(keyword@.len() == keyword.len()),
        ConcreteLineToken::ConditionalKeyword { contents } => assert(contents@.len() == contents.len()),
        ConcreteLineToken::DirectPart { part } => assert(part@.len() == part.len()),
        ConcreteLineToken::MethodName { name } => assert(name@.len() == name.len()),
        ConcreteLineToken::Op { op } => assert(op@.len() == op.len()),
        ConcreteLineToken::LTStringContent { content } => assert(content@.len() == content.len()),
        ConcreteLineToken::Comment { contents } => assert(contents@.len() == contents.len()),
        ConcreteLineToken::Delim { contents } => assert(contents@.len() == contents.len()),
        ConcreteLineToken::HeredocClose { symbol } => assert(symbol@.len() == symbol.len()),
        ConcreteLineToken::HeredocStart { symbol, .. } => assert(symbol@.len() == symbol.len()),
        ConcreteLineToken::RawHeredocContent { content } => assert(content@.len() == content.len()),
        _ => {},
    }
}

/// A token's single-line length is the length of what writing it on a
/// single line gives, for a token that is no breakable entry and carries no
/// heredoc (a newline with heredocs counts as longer than a line); with
/// the saturation of `single_line_len`, the two are equal too.
pub proof fn law_single_line_len_is_written_len(t: AbstractLineToken, w: Seq<ConcreteLineTokenAndTargets>)
    requires
        single_line_out(t, w),
        !(t is BreakableEntry),
        !(t is BreakableCallChainEntry),
    ensures
        (t matches AbstractLineToken::CollapsingNewLine(Some(_))) || (t matches AbstractLineToken::SoftNewline(
            Some(_),
        )) ==> token_len(t) == (MAX_LINE_LENGTH + 1) as nat,
        !((t matches AbstractLineToken::CollapsingNewLine(Some(_))) || (t matches AbstractLineToken::SoftNewline(
            Some(_),
        ))) ==> token_len(t) == written_len(w),
        !((t matches AbstractLineToken::CollapsingNewLine(Some(_))) || (t matches AbstractLineToken::SoftNewline(
            Some(_),
        ))) ==> sat(token_len(t)) == written_len(w),
{
    match t {
        AbstractLineToken::SoftNewline(None) => {
            assert(w =~= seq![ConcreteLineTokenAndTargets::ConcreteLineToken(ConcreteLineToken::Space)]) by {
                assert(w.skip(1).len() == 0);
            }
            assert(w.drop_last().len() == 0);
            assert(ConcreteLineToken::Space.ruby() =~= seq![32u8]);
            assert(written_len(w.drop_last()) == 0);
            assert(written_len(w) == 1);
            assert(token_len(t) == 1);
        },
        AbstractLineToken::ConcreteLineToken(c) => {
            assert(w.drop_last().len() == 0);
            assert(written_len(w.drop_last()) == 0);
            assert(written_len(w) == c.ruby().len());
            lemma_ruby_len_bounded(c);
        },
        AbstractLineToken::CollapsingNewLine(None) => {
            assert(written_len(w) == 0);
        },
        AbstractLineToken::SoftIndent { .. } => {
            assert(written_len(w) == 0);
        },
        _ => {},
    }
}

/// The single-line length of a sequence of abstract tokens.
pub open spec fn tokens_len(s: Seq<AbstractLineToken>) -> nat
    decreases s,
{
    if s.len() == 0 {
        0
    } else {
        tokens_len(s.drop_last()) + token_len(s.last())
    }
}

/// The tokens that render the given heredocs after a newline.
pub open spec fn heredocs_ok(hs: Seq<HeredocString>) -> bool {
    forall|i: int|
        0 <= i < hs.len() ==> hs[i].indent != 1 && #[trigger] hs[i].indent as int + 2 <= usize::MAX
}

/// The number of tokens `write_heredocs` emits for one heredoc.
pub open spec fn heredoc_token_count(h: HeredocString) -> nat {
    (if render_segments(h.segments@, h.kind == HeredocKind::Squiggly, h.indent as nat).len() > 0 {
        2nat
    } else {
        0nat
    }) + (if h.kind == HeredocKind::Bare {
        0nat
    } else {
        1nat
    }) + 3
}

pub open spec fn heredocs_token_count(hs: Seq<HeredocString>) -> nat
    decreases hs.len(),
{
    if hs.len() == 0 {
        0
    } else {
        heredocs_token_count(hs.drop_last()) + heredoc_token_count(hs.last())
    }
}

/// What `write_heredocs` appends: nothing for `None`.
pub open spec fn opt_heredocs_count(h: Option<Vec<HeredocString>>) -> nat {
    match h {
        Some(v) => heredocs_token_count(v@),
        None => 0,
    }
}

pub open spec fn opt_heredocs_ok(h: Option<Vec<HeredocString>>) -> bool {
    match h {
        Some(v) => heredocs_ok(v@),
        None => true,
    }
}

/// `w` is what `write_heredocs` appends for the heredoc `h`: its body and a
/// newline (when the body is not empty), the closing indent (unless the
/// heredoc is bare), the closing symbol, a newline, and the indent of the
/// line that follows.
pub open spec fn heredoc_written(h: HeredocString, w: Seq<ConcreteLineTokenAndTargets>) -> bool {
    let body = render_segments(h.segments@, h.kind == HeredocKind::Squiggly, h.indent as nat);
    let b: int = if body.len() > 0 {
        2
    } else {
        0
    };
    let k: int = if h.kind == HeredocKind::Bare {
        0
    } else {
        1
    };
    &&& w.len() == b + k + 3
    &&& body.len() > 0 ==> {
        &&& w[0] matches ConcreteLineTokenAndTargets::ConcreteLineToken(
            ConcreteLineToken::DirectPart { part },
        ) && part@ == body
        &&& w[1] == cltats_spec_newline()
    }
    &&& h.kind != HeredocKind::Bare ==> w[b] == ConcreteLineTokenAndTargets::ConcreteLineToken(
        ConcreteLineToken::Indent { depth: h.indent },
    )
    &&& w[b + k] matches ConcreteLineTokenAndTargets::ConcreteLineToken(
        ConcreteLineToken::HeredocClose { symbol },
    ) && symbol@ == remove_quotes(h.symbol@)
    &&& w[b + k + 1] == cltats_spec_newline()
    &&& w[b + k + 2] == ConcreteLineTokenAndTargets::ConcreteLineToken(
        ConcreteLineToken::Indent {
            depth: if h.indent != 0 {
                (h.indent - 2) as u32
            } else {
                0u32
            },
        },
    )
}

/// `w` is what `write_heredocs` appends for the heredocs `hs`, in order.
pub open spec fn heredocs_written(hs: Seq<HeredocString>, w: Seq<ConcreteLineTokenAndTargets>) -> bool
    decreases hs.len(),
{
    if hs.len() == 0 {
        w.len() == 0
    } else {
        let c = heredoc_token_count(hs.last());
        &&& w.len() >= c
        &&& heredocs_written(hs.drop_last(), w.take(w.len() - c))
        &&& heredoc_written(hs.last(), w.skip(w.len() - c))
    }
}

pub open spec fn opt_heredocs_written(h: Option<Vec<HeredocString>>, w: Seq<ConcreteLineTokenAndTargets>) -> bool {
    match h {
        Some(v) => heredocs_written(v@, w),
        None => w.len() == 0,
    }
}

/// `w` is what an abstract token becomes when written on a single line.
pub open spec fn single_line_out(t: AbstractLineToken, w: Seq<ConcreteLineTokenAndTargets>) -> bool {
    match t {
        AbstractLineToken::CollapsingNewLine(h) => if h is Some {
            w.len() >= 1 && w[0] == cltats_spec_newline() && opt_heredocs_written(h, w.skip(1))
        } else {
            w.len() == 0
        },
        AbstractLineToken::SoftNewline(h) => {
            &&& w.len() >= 1
            &&& w[0] == ConcreteLineTokenAndTargets::ConcreteLineToken(ConcreteLineToken::Space)
            &&& opt_heredocs_written(h, w.skip(1))
        },
        AbstractLineToken::SoftIndent { .. } => w.len() == 0,
        AbstractLineToken::ConcreteLineToken(clt) => w == seq![
            ConcreteLineTokenAndTargets::ConcreteLineToken(clt),
        ],
        AbstractLineToken::BreakableEntry(be) => w == seq![
            ConcreteLineTokenAndTargets::BreakableEntry(be),
        ],
        AbstractLineToken::BreakableCallChainEntry(b) => w == seq![
            ConcreteLineTokenAndTargets::BreakableCallChainEntry(b),
        ],
    }
}

/// `w` is what an abstract token becomes when written across lines.
pub open spec fn multi_line_out(t: AbstractLineToken, w: Seq<ConcreteLineTokenAndTargets>) -> bool {
    match t {
        AbstractLineToken::CollapsingNewLine(h) => {
            w.len() >= 1 && w[0] == cltats_spec_newline() && opt_heredocs_written(h, w.skip(1))
        },
        AbstractLineToken::SoftNewline(h) => {
            w.len() >= 1 && w[0] == cltats_spec_newline() && opt_heredocs_written(h, w.skip(1))
        },
        AbstractLineToken::SoftIndent { depth } => w == seq![
            ConcreteLineTokenAndTargets::ConcreteLineToken(ConcreteLineToken::Indent { depth }),
        ],
        AbstractLineToken::ConcreteLineToken(clt) => w == seq![
            ConcreteLineTokenAndTargets::ConcreteLineToken(clt),
        ],
        AbstractLineToken::BreakableEntry(be) => w == seq![
            ConcreteLineTokenAndTargets::BreakableEntry(be),
        ],
        AbstractLineToken::BreakableCallChainEntry(b) => w == seq![
            ConcreteLineTokenAndTargets::BreakableCallChainEntry(b),
        ],
    }
}

/// The number of tokens an abstract token becomes on a single line.
pub open spec fn single_line_count(t: AbstractLineToken) -> nat {
    match t {
        AbstractLineToken::CollapsingNewLine(h) => if h is Some {
            1 + opt_heredocs_count(h)
        } else {
            0
        },
        AbstractLineToken::SoftNewline(h) => 1 + opt_heredocs_count(h),
        AbstractLineToken::SoftIndent { .. } => 0,
        _ => 1,
    }
}

/// The number of tokens an abstract token becomes across lines.
pub open spec fn multi_line_count(t: AbstractLineToken) -> nat {
    match t {
        AbstractLineToken::CollapsingNewLine(h) => 1 + opt_heredocs_count(h),
        AbstractLineToken::SoftNewline(h) => 1 + opt_heredocs_count(h),
        _ => 1,
    }
}

pub open spec fn cltats_spec_newline() -> ConcreteLineTokenAndTargets {
    ConcreteLineTokenAndTargets::ConcreteLineToken(ConcreteLineToken::HardNewLine)
}

/// Whether the heredocs an abstract token carries can be written out.
pub open spec fn abstract_heredocs_ok(t: AbstractLineToken) -> bool {
    match t {
        AbstractLineToken::CollapsingNewLine(h) => opt_heredocs_ok(h),
        AbstractLineToken::SoftNewline(h) => opt_heredocs_ok(h),
        _ => true,
    }
}

impl AbstractLineToken {
    pub open spec fn spec_is_newline(&self) -> bool {
        match self {
            AbstractLineToken::ConcreteLineToken(clt) => clt is HardNewLine,
            AbstractLineToken::SoftNewline(_) => true,
            AbstractLineToken::CollapsingNewLine(_) => true,
            _ => false,
        }
    }

    pub open spec fn spec_is_indent(&self) -> bool {
        self matches AbstractLineToken::ConcreteLineToken(ConcreteLineToken::Indent { .. })
    }

    pub open spec fn newline_safe(&self) -> bool {
        self matches AbstractLineToken::ConcreteLineToken(clt) ==> !clt.is_lone_newline_part()
    }

    pub fn write_single_line(self, out: &mut Vec<ConcreteLineTokenAndTargets>)
        requires
            abstract_heredocs_ok(self),
        ensures
            final(out)@.len() == old(out)@.len() + single_line_count(self),
            final(out)@.take(old(out)@.len() as int) == old(out)@,
            single_line_out(self, final(out)@.skip(old(out)@.len() as int)),
    {
        let ghost start = out@;
        match self {
            Self::CollapsingNewLine(heredoc_strings) => {
                if heredoc_strings.is_some() {
                    out.push(cltats_hard_newline());
                }
                let ghost mid = out@;
                Self::write_heredocs(heredoc_strings, out);
                proof {
                    if heredoc_strings is Some {
                        lemma_push_then(start, mid, out@, cltats_spec_newline());
                    } else {
                        assert(out@ =~= start);
                    }
                }
            },
            Self::SoftNewline(heredoc_strings) => {
                out.push(ConcreteLineTokenAndTargets::ConcreteLineToken(ConcreteLineToken::Space));
                let ghost mid = out@;
                Self::write_heredocs(heredoc_strings, out);
                proof {
                    lemma_push_then(
                        start,
                        mid,
                        out@,
                        ConcreteLineTokenAndTargets::ConcreteLineToken(ConcreteLineToken::Space),
                    );
                }
            },
            Self::SoftIndent { .. } => {
                assert(out@.skip(start.len() as int) =~= Seq::<ConcreteLineTokenAndTargets>::empty());
                assert(out@.take(start.len() as int) =~= start);
            },
            Self::ConcreteLineToken(clt) => {
                out.push(ConcreteLineTokenAndTargets::ConcreteLineToken(clt));
                proof {
                    lemma_push_one(start, out@);
                }
            },
            Self::BreakableEntry(be) => {
                out.push(ConcreteLineTokenAndTargets::BreakableEntry(be));
                proof {
                    lemma_push_one(start, out@);
                }
            },
            Self::BreakableCallChainEntry(bcce) => {
                out.push(ConcreteLineTokenAndTargets::BreakableCallChainEntry(bcce));
                proof {
                    lemma_push_one(start, out@);
                }
            },
        }
    }

    pub fn write_multi_line(self, out: &mut Vec<ConcreteLineTokenAndTargets>)
        requires
            abstract_heredocs_ok(self),
        ensures
            final(out)@.len() == old(out)@.len() + multi_line_count(self),
            final(out)@.take(old(out)@.len() as int) == old(out)@,
            multi_line_out(self, final(out)@.skip(old(out)@.len() as int)),
    {
        let ghost start = out@;
        match self {
            Self::CollapsingNewLine(heredoc_strings) => {
                out.push(cltats_hard_newline());
                let ghost mid = out@;
                Self::write_heredocs(heredoc_strings, out);
                proof {
                    lemma_push_then(start, mid, out@, cltats_spec_newline());
                }
            },
            Self::SoftNewline(heredoc_strings) => {
                out.push(cltats_hard_newline());
                let ghost mid = out@;
                Self::write_heredocs(heredoc_strings, out);
                proof {
                    lemma_push_then(start, mid, out@, cltats_spec_newline());
                }
            },
            Self::SoftIndent { depth } => {
                out.push(
                    ConcreteLineTokenAndTargets::ConcreteLineToken(ConcreteLineToken::Indent { depth }),
                );
                proof {
                    lemma_push_one(start, out@);
                }
            },
            Self::ConcreteLineToken(clt) => {
                out.push(ConcreteLineTokenAndTargets::ConcreteLineToken(clt));
                proof {
                    lemma_push_one(start, out@);
                }
            },
            Self::BreakableEntry(be) => {
                out.push(ConcreteLineTokenAndTargets::BreakableEntry(be));
                proof {
                    lemma_push_one(start, out@);
                }
            },
            Self::BreakableCallChainEntry(bcce) => {
                out.push(ConcreteLineTokenAndTargets::BreakableCallChainEntry(bcce));
                proof {
                    lemma_push_one(start, out@);
                }
            },
        }
    }

    /// Writes each heredoc: its body and a newline (if the body is not empty),
    /// the closing indent (unless the heredoc is bare), the closing symbol, a
    /// newline, and the indent of the line that follows.
    fn write_heredocs(heredoc_strings: Option<Vec<HeredocString>>, out: &mut Vec<ConcreteLineTokenAndTargets>)
        requires
            opt_heredocs_ok(heredoc_strings),
        ensures
            final(out)@.len() == old(out)@.len() + opt_heredocs_count(heredoc_strings),
            final(out)@.take(old(out)@.len() as int) == old(out)@,
            opt_heredocs_written(heredoc_strings, final(out)@.skip(old(out)@.len() as int)),
    {
        if let Some(values) = heredoc_strings {
            let ghost vs = values@;
            let ghost start = out@;
            let mut values = values;
            let n = values.len();
            let mut i: usize = 0;
            while i < n
                invariant
                    n == vs.len(),
                    i <= n,
                    heredocs_ok(vs),
                    values@ == vs.skip(i as int),
                    out@.len() == start.len() + heredocs_token_count(vs.take(i as int)),
                    out@.take(start.len() as int) == start,
                    heredocs_written(vs.take(i as int), out@.skip(start.len() as int)),
                decreases n - i,
            {
                let hds = values.remove(0);
                assert(hds == vs[i as int]);
                assert(vs.skip(i as int).remove(0) =~= vs.skip(i + 1));
                assert(vs.take(i + 1).drop_last() =~= vs.take(i as int));
                let ghost before = out@;
                let ghost hg = hds;
                let indent = hds.indent;
                let kind = hds.kind;
                let symbol = hds.closing_symbol();
                let s = hds.render_as_bytes();
                if s.len() > 0 {
                    out.push(clats_direct_part(s));
                    out.push(cltats_hard_newline());
                }
                if !kind.is_bare() {
                    out.push(clats_indent(indent));
                }
                out.push(clats_heredoc_close(symbol));
                out.push(cltats_hard_newline());
                let indent_depth = if indent != 0 {
                    indent - 2
                } else {
                    indent
                };
                out.push(clats_indent(indent_depth));
                proof {
                    let w = out@.skip(start.len() as int);
                    let c = heredoc_token_count(hg);
                    let neww = out@.skip(before.len() as int);
                    assert(neww.len() == c);
                    assert(w.take(w.len() - c) =~= before.skip(start.len() as int));
                    assert(w.skip(w.len() - c) =~= neww);
                    assert(heredoc_written(hg, neww));
                    assert(vs.take(i + 1).last() == hg);
                }
                assert(out@.take(before.len() as int) =~= before) by {
                    assert forall|k: int| 0 <= k < before.len() implies out@[k] == before[k] by {}
                }
                assert(out@.take(start.len() as int) =~= start) by {
                    assert forall|k: int| 0 <= k < start.len() implies out@[k] == start[k] by {
                        assert(before.take(start.len() as int)[k] == start[k]);
                        assert(out@.take(before.len() as int)[k] == before[k]);
                    }
                }
                i = i + 1;
            }
            assert(vs.take(n as int) =~= vs);
        }
    }

    pub fn is_indent(&self) -> (r: bool)
        ensures
            r == self.spec_is_indent(),
    {
        match self {
            Self::ConcreteLineToken(clt) => clt.is_indent(),
            _ => false,
        }
    }

    pub fn is_newline(&self) -> (r: bool)
        requires
            self.newline_safe(),
        ensures
            r == self.spec_is_newline(),
    {
        match self {
            Self::ConcreteLineToken(clt) => clt.is_newline(),
            Self::SoftNewline(_) => true,
            Self::CollapsingNewLine(_) => true,
            _ => false,
        }
    }
}

proof fn lemma_push_one<T>(old: Seq<T>, new: Seq<T>)
    requires
        new.len() == old.len() + 1,
        new == old.push(new.last()),
    ensures
        new.take(old.len() as int) == old,
        new.skip(old.len() as int) == seq![new.last()],
{
    assert(new.take(old.len() as int) =~= old);
    assert(new.skip(old.len() as int) =~= seq![new.last()]);
}

proof fn lemma_push_then<T>(old: Seq<T>, mid: Seq<T>, new: Seq<T>, x: T)
    requires
        mid == old.push(x),
        new.len() >= mid.len(),
        new.take(mid.len() as int) == mid,
    ensures
        new.take(old.len() as int) == old,
        new.skip(old.len() as int).len() >= 1,
        new.skip(old.len() as int)[0] == x,
        new.skip(old.len() as int).skip(1) == new.skip(mid.len() as int),
{
    assert(new.take(old.len() as int) =~= old) by {
        assert forall|k: int| 0 <= k < old.len() implies new[k] == old[k] by {
            assert(new.take(mid.len() as int)[k] == mid[k]);
            assert(mid[k] == old[k]);
        }
    }
    assert(new[old.len() as int] == new.take(mid.len() as int)[old.len() as int]);
    assert(new.skip(old.len() as int).skip(1) =~= new.skip(mid.len() as int));
}

} // verus!
