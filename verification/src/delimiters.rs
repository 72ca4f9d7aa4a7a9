use crate::line_tokens::ConcreteLineToken;
use crate::render_targets::ConvertType;
use crate::util::{bytes_eq, bytes_of};
use vstd::prelude::*;

verus! {

#[derive(Debug)]
struct DelimiterPair {
    open: Vec<u8>,
    close: Vec<u8>,
}

impl DelimiterPair {
    fn new(open: &[u8], close: &[u8]) -> (r: Self)
        ensures
            r.open@ == open@,
            r.close@ == close@,
    {
        DelimiterPair { open: bytes_of(open), close: bytes_of(close) }
    }
}

/// The delimiters of an expression that may be laid out on one line or on
/// several: the single-line opening and closing bytes, and the multi-line ones.
#[derive(Debug)]
pub struct BreakableDelims {
    single_line: DelimiterPair,
    multi_line: DelimiterPair,
}

/// The view of a set of delimiters: single-line open and close, multi-line open and close.
pub type DelimsView = (Seq<u8>, Seq<u8>, Seq<u8>, Seq<u8>);

impl View for BreakableDelims {
    type V = DelimsView;

    closed spec fn view(&self) -> DelimsView {
        (self.single_line.open@, self.single_line.close@, self.multi_line.open@, self.multi_line.close@)
    }
}

pub open spec fn method_call_delims() -> DelimsView {
    (seq![40u8], seq![41u8], seq![40u8], seq![41u8])
}

pub open spec fn return_kw_delims() -> DelimsView {
    (seq![32u8], seq![], seq![32u8, 91u8], seq![93u8])
}

pub open spec fn kw_delims() -> DelimsView {
    (seq![32u8], seq![], seq![40u8], seq![41u8])
}

pub open spec fn block_params_delims() -> DelimsView {
    (seq![32u8, 124u8], seq![124u8], seq![32u8, 124u8], seq![124u8])
}

pub open spec fn array_delims() -> DelimsView {
    (seq![91u8], seq![93u8], seq![91u8], seq![93u8])
}

pub open spec fn when_delims() -> DelimsView {
    (seq![32u8], seq![], seq![], seq![])
}

pub open spec fn hash_delims() -> DelimsView {
    (seq![123u8], seq![125u8], seq![123u8], seq![125u8])
}

pub open spec fn brace_block_delims() -> DelimsView {
    (seq![123u8], seq![32u8, 125u8], seq![123u8], seq![125u8])
}

pub open spec fn binary_op_delims() -> DelimsView {
    (seq![], seq![], seq![], seq![])
}

pub open spec fn parens_delims() -> DelimsView {
    (seq![40u8], seq![41u8], seq![40u8], seq![41u8])
}

/// No delimiter is longer than two bytes.
pub open spec fn delims_are_short(d: DelimsView) -> bool {
    d.0.len() <= 2 && d.1.len() <= 2 && d.2.len() <= 2 && d.3.len() <= 2
}

impl BreakableDelims {
    #[verifier::type_invariant]
    spec fn short_delimiters(self) -> bool {
        delims_are_short(self@)
    }

    fn build(so: &[u8], sc: &[u8], mo: &[u8], mc: &[u8]) -> (r: Self)
        requires
            so@.len() <= 2,
            sc@.len() <= 2,
            mo@.len() <= 2,
            mc@.len() <= 2,
        ensures
            r@ == (so@, sc@, mo@, mc@),
    {
        BreakableDelims {
            single_line: DelimiterPair::new(so, sc),
            multi_line: DelimiterPair::new(mo, mc),
        }
    }

    pub fn for_method_call() -> (r: Self)
        ensures
            r@ == method_call_delims(),
    {
        Self::build(&[40u8], &[41u8], &[40u8], &[41u8])
    }

    pub fn for_return_kw() -> (r: Self)
        ensures
            r@ == return_kw_delims(),
    {
        Self::build(&[32u8], &[], &[32u8, 91u8], &[93u8])
    }

    pub fn for_kw() -> (r: Self)
        ensures
            r@ == kw_delims(),
    {
        Self::build(&[32u8], &[], &[40u8], &[41u8])
    }

    pub fn for_block_params() -> (r: Self)
        ensures
            r@ == block_params_delims(),
    {
        Self::build(&[32u8, 124u8], &[124u8], &[32u8, 124u8], &[124u8])
    }

    pub fn for_array() -> (r: Self)
        ensures
            r@ == array_delims(),
    {
        Self::build(&[91u8], &[93u8], &[91u8], &[93u8])
    }

    pub fn for_when() -> (r: Self)
        ensures
            r@ == when_delims(),
    {
        Self::build(&[32u8], &[], &[], &[])
    }

    pub fn for_hash() -> (r: Self)
        ensures
            r@ == hash_delims(),
    {
        Self::build(&[123u8], &[125u8], &[123u8], &[125u8])
    }

    pub fn for_brace_block() -> (r: Self)
        ensures
            r@ == brace_block_delims(),
    {
        Self::build(&[123u8], &[32u8, 125u8], &[123u8], &[125u8])
    }

    pub fn for_binary_op() -> (r: Self)
        ensures
            r@ == binary_op_delims(),
    {
        Self::build(&[], &[], &[], &[])
    }

    pub fn for_parens() -> (r: Self)
        ensures
            r@ == parens_delims(),
    {
        Self::build(&[40u8], &[41u8], &[40u8], &[41u8])
    }

    pub fn single_line_open(&self) -> (r: ConcreteLineToken)
        ensures
            r matches ConcreteLineToken::Delim { contents } && contents@ == self@.0,
    {
        ConcreteLineToken::Delim { contents: bytes_of(self.single_line.open.as_slice()) }
    }

    pub fn single_line_close(&self) -> (r: ConcreteLineToken)
        ensures
            r matches ConcreteLineToken::Delim { contents } && contents@ == self@.1,
    {
        ConcreteLineToken::Delim { contents: bytes_of(self.single_line.close.as_slice()) }
    }

    pub fn multi_line_open(&self) -> (r: ConcreteLineToken)
        ensures
            r matches ConcreteLineToken::Delim { contents } && contents@ == self@.2,
    {
        ConcreteLineToken::Delim { contents: bytes_of(self.multi_line.open.as_slice()) }
    }

    pub fn multi_line_close(&self) -> (r: ConcreteLineToken)
        ensures
            r matches ConcreteLineToken::Delim { contents } && contents@ == self@.3,
    {
        ConcreteLineToken::Delim { contents: bytes_of(self.multi_line.close.as_slice()) }
    }

    /// The length of the single-line delimiters together.
    pub fn single_line_len(&self) -> (r: usize)
        ensures
            r == self@.0.len() + self@.1.len(),
    {
        proof {
            use_type_invariant(self);
        }
        self.single_line.open.len() + self.single_line.close.len()
    }

    /// Whether two sets of delimiters are the same bytes.
    pub fn same_as(&self, other: &BreakableDelims) -> (r: bool)
        ensures
            r == (self@ == other@),
    {
        bytes_eq(self.single_line.open.as_slice(), other.single_line.open.as_slice())
            && bytes_eq(self.single_line.close.as_slice(), other.single_line.close.as_slice())
            && bytes_eq(self.multi_line.open.as_slice(), other.multi_line.open.as_slice())
            && bytes_eq(self.multi_line.close.as_slice(), other.multi_line.close.as_slice())
    }

    /// The opening delimiter token for the layout `ct`, holding the stored bytes.
    pub closed spec fn open_token(&self, ct: ConvertType) -> ConcreteLineToken {
        if ct == ConvertType::MultiLine {
            ConcreteLineToken::Delim { contents: self.multi_line.open }
        } else {
            ConcreteLineToken::Delim { contents: self.single_line.open }
        }
    }

    /// The closing delimiter token for the layout `ct`, holding the stored bytes.
    pub closed spec fn close_token(&self, ct: ConvertType) -> ConcreteLineToken {
        if ct == ConvertType::MultiLine {
            ConcreteLineToken::Delim { contents: self.multi_line.close }
        } else {
            ConcreteLineToken::Delim { contents: self.single_line.close }
        }
    }

    /// The delimiter tokens hold the delimiters' bytes for their layout.
    pub proof fn lemma_delim_tokens(&self, ct: ConvertType)
        ensures
            self.open_token(ct) matches ConcreteLineToken::Delim { contents } && contents@ == if ct
                == ConvertType::MultiLine {
                self@.2
            } else {
                self@.0
            },
            self.close_token(ct) matches ConcreteLineToken::Delim { contents } && contents@ == if ct
                == ConvertType::MultiLine {
                self@.3
            } else {
                self@.1
            },
    {
    }

    /// The opening and closing delimiter tokens for the layout `ct`, made of
    /// the delimiters' own bytes.
    pub(crate) fn into_tokens(self, ct: ConvertType) -> (r: (ConcreteLineToken, ConcreteLineToken))
        ensures
            r == (self.open_token(ct), self.close_token(ct)),
    {
        let BreakableDelims { single_line, multi_line } = self;
        match ct {
            ConvertType::MultiLine => (
                ConcreteLineToken::Delim { contents: multi_line.open },
                ConcreteLineToken::Delim { contents: multi_line.close },
            ),
            ConvertType::SingleLine => (
                ConcreteLineToken::Delim { contents: single_line.open },
                ConcreteLineToken::Delim { contents: single_line.close },
            ),
        }
    }

    /// A copy of these delimiters.
    pub fn copy(&self) -> (r: BreakableDelims)
        ensures
            r@ == self@,
    {
        proof {
            use_type_invariant(self);
        }
        Self::build(
            self.single_line.open.as_slice(),
            self.single_line.close.as_slice(),
            self.multi_line.open.as_slice(),
            self.multi_line.close.as_slice(),
        )
    }
}

} // verus!
