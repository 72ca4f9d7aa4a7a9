pub mod comment_block;
pub mod delimiters;
pub mod file_comments;
pub mod format;
pub mod format_prism;
pub mod heredoc_string;
pub mod intermediary;
pub mod line_metadata;
pub mod line_tokens;
pub mod parser_state;
pub mod render_queue_writer;
pub mod render_targets;
pub mod ruby_comments;
pub mod ruby_ops;
pub mod string_escape;
pub mod syntax_node;
pub mod types;
pub mod util;

use vstd::prelude::*;

verus! {

/// An I/O error, carried through as it is.
#[verifier::external_type_specification]
#[verifier::external_body]
pub struct ExIoError(std::io::Error);

#[derive(Debug)]
pub enum RichFormatError {
    SyntaxError,
    IOError(std::io::Error),
}

#[derive(Debug, Copy, Clone)]
pub enum FormatError {
    OK,
    SyntaxError,
    RipperParseFailure,
    IOError,
    OtherRubyError,
    // Diffs are only necessary in --check mode
    DiffDetected,
}

/// Whether `ruby_prism::parse` reports no error on the source.
pub uninterp spec fn prism_parses_cleanly(source: Seq<u8>) -> bool;

/// `ruby_prism::parse(source)` and whether its result lists no error
/// (`ParseResult::is_success`). Which sources parse is given a name, not
/// stated.
#[verifier::external_body]
fn parses_cleanly(source: &[u8]) -> (r: bool)
    ensures
        r == prism_parses_cleanly(source@),
{
    ruby_prism::parse(source).is_success()
}

/// The first step of formatting a buffer: a source on which the
/// parser reports an error is refused with `SyntaxError`, any other passes.
pub fn check_syntax(buf: &[u8]) -> (r: Result<(), RichFormatError>)
    ensures
        r is Ok <==> prism_parses_cleanly(buf@),
        r matches Err(e) ==> e is SyntaxError,
{
    if parses_cleanly(buf) {
        Ok(())
    } else {
        Err(RichFormatError::SyntaxError)
    }
}

impl FormatError {
    /// The process exit code for the error.
    pub fn code(&self) -> (r: i32)
        ensures
            r == match self {
                FormatError::OK => 0i32,
                FormatError::SyntaxError => 1i32,
                FormatError::RipperParseFailure => 2i32,
                FormatError::IOError => 3i32,
                FormatError::OtherRubyError => 4i32,
                FormatError::DiffDetected => 5i32,
            },
    {
        match self {
            FormatError::OK => 0,
            FormatError::SyntaxError => 1,
            FormatError::RipperParseFailure => 2,
            FormatError::IOError => 3,
            FormatError::OtherRubyError => 4,
            FormatError::DiffDetected => 5,
        }
    }
}

impl RichFormatError {
    /// The process exit code: 1 for a syntax error, 3 for an I/O error.
    pub fn as_exit_code(&self) -> (r: i32)
        ensures
            r == match self {
                RichFormatError::SyntaxError => 1i32,
                RichFormatError::IOError(_) => 3i32,
            },
    {
        self.as_format_error().code()
    }

    pub fn as_format_error(&self) -> (r: FormatError)
        ensures
            r == match self {
                RichFormatError::SyntaxError => FormatError::SyntaxError,
                RichFormatError::IOError(_) => FormatError::IOError,
            },
    {
        match self {
            RichFormatError::SyntaxError => FormatError::SyntaxError,
            RichFormatError::IOError(_) => FormatError::IOError,
        }
    }
}

} // verus!
