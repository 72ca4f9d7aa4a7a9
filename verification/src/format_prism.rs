use crate::heredoc_string::HeredocKind;
use crate::line_tokens::{AbstractLineToken, ConcreteLineToken};
use crate::parser_state::{pushed_one, FormattingContext, ParserState};
use crate::syntax_node::{CallNode, ParametersNode, SyntaxKind, SyntaxNode};
use crate::types::{LineNumber, SourceOffset};
use vstd::prelude::*;

verus! {

/// `s` without one trailing `:`.
pub open spec fn strip_colon(s: Seq<u8>) -> Seq<u8> {
    if s.len() > 0 && s.last() == 58u8 {
        s.drop_last()
    } else {
        s
    }
}

/// The last token of the target is a direct part with these bytes.
pub open spec fn last_part_is(ps: &ParserState, bytes: Seq<u8>) -> bool {
    &&& ps.target().len() > 0
    &&& ps.target().last() matches AbstractLineToken::ConcreteLineToken(ConcreteLineToken::DirectPart { part })
    &&& ps.target().last()->ConcreteLineToken_0->DirectPart_part@ == bytes
}

/// Emits the closer of a symbol key without its trailing `:`, if anything is
/// left.
pub fn emit_symbol_key_closer(ps: &mut ParserState, closer: &[u8])
    requires
        old(ps).wf(),
        strip_colon(closer@) != seq![10u8],
    ensures
        final(ps).wf(),
        strip_colon(closer@).len() == 0 ==> *final(ps) == *old(ps),
        strip_colon(closer@).len() > 0 ==> {
            &&& pushed_one(old(ps).target(), final(ps).target())
            &&& last_part_is(final(ps), strip_colon(closer@))
            &&& final(ps).same_but_target(old(ps))
        },
{
    let n = closer.len();
    let trimmed = if n > 0 && closer[n - 1] == 58u8 {
        vstd::slice::slice_subrange(closer, 0, n - 1)
    } else {
        closer
    };
    assert(trimmed@ == strip_colon(closer@)) by {
        if n > 0 && closer@.last() == 58u8 {
            assert(closer@.subrange(0, n - 1) =~= closer@.drop_last());
        }
    }
    if trimmed.len() > 0 {
        ps.emit_ident(trimmed);
    }
}

/// The closing delimiter for an opening one: brackets pair up, any other
/// delimiter closes itself.
pub fn matching_delimiter(open: u8) -> (r: u8)
    ensures
        r == if open == 91u8 {
            93u8
        } else if open == 40u8 {
            41u8
        } else if open == 123u8 {
            125u8
        } else if open == 60u8 {
            62u8
        } else {
            open
        },
{
    match open {
        91u8 => 93u8,
        40u8 => 41u8,
        123u8 => 125u8,
        60u8 => 62u8,
        c => c,
    }
}

/// `b` is `a` moved to the line of `offset` (see `ParserState::on_line`)
/// with a direct part holding `bytes` pushed there.
pub open spec fn emitted_at(a: &ParserState, b: &ParserState, offset: SourceOffset, bytes: Seq<u8>) -> bool {
    &&& last_part_is(b, bytes)
    &&& exists|m: ParserState|
        #![trigger ParserState::moved_to_line(*a, m, (crate::file_comments::newlines_before(a.comments_hash.newline_offsets@, offset) + 1) as LineNumber)]
        ParserState::moved_to_line(
            *a,
            m,
            (crate::file_comments::newlines_before(a.comments_hash.newline_offsets@, offset) + 1) as LineNumber,
        ) && crate::parser_state::pushed_one(m.target(), b.target()) && b.same_but_target(&m)
}

/// Moves to the line of `offset` and emits `ident` there.
pub fn handle_string_at_offset(ps: &mut ParserState, ident: &[u8], offset: SourceOffset)
    requires
        old(ps).wf(),
        ident@ != seq![10u8],
    ensures
        final(ps).wf(),
        emitted_at(old(ps), final(ps), offset, ident@),
{
    ps.at_offset(offset);
    let ghost m = *ps;
    ps.emit_ident(ident);
    proof {
        assert(ParserState::moved_to_line(
            *old(ps),
            m,
            (crate::file_comments::newlines_before(old(ps).comments_hash.newline_offsets@, offset) + 1) as LineNumber,
        ));
    }
}

pub fn format_nil_node(ps: &mut ParserState)
    requires
        old(ps).wf(),
    ensures
        final(ps).wf(),
        pushed_one(old(ps).target(), final(ps).target()),
        last_part_is(final(ps), seq![110u8, 105u8, 108u8]),
        final(ps).same_but_target(old(ps)),
{
    let word = [110u8, 105u8, 108u8];
    assert(word@ =~= seq![110u8, 105u8, 108u8]);
    ps.emit_ident(&word);
}

pub fn format_redo_node(ps: &mut ParserState)
    requires
        old(ps).wf(),
    ensures
        final(ps).wf(),
        pushed_one(old(ps).target(), final(ps).target()),
        last_part_is(final(ps), seq![114u8, 101u8, 100u8, 111u8]),
        final(ps).same_but_target(old(ps)),
{
    let word = [114u8, 101u8, 100u8, 111u8];
    assert(word@ =~= seq![114u8, 101u8, 100u8, 111u8]);
    ps.emit_ident(&word);
}

pub fn format_self_node(ps: &mut ParserState)
    requires
        old(ps).wf(),
    ensures
        final(ps).wf(),
        pushed_one(old(ps).target(), final(ps).target()),
        last_part_is(final(ps), seq![115u8, 101u8, 108u8, 102u8]),
        final(ps).same_but_target(old(ps)),
{
    let word = [115u8, 101u8, 108u8, 102u8];
    assert(word@ =~= seq![115u8, 101u8, 108u8, 102u8]);
    ps.emit_ident(&word);
}

pub fn format_retry_node(ps: &mut ParserState)
    requires
        old(ps).wf(),
    ensures
        final(ps).wf(),
        pushed_one(old(ps).target(), final(ps).target()),
        crate::parser_state::last_keyword(final(ps).target()) == Some(seq![114u8, 101u8, 116u8, 114u8, 121u8]),
        final(ps).same_but_target(old(ps)),
{
    let word = [114u8, 101u8, 116u8, 114u8, 121u8];
    assert(word@ =~= seq![114u8, 101u8, 116u8, 114u8, 121u8]);
    ps.emit_keyword(&word);
    assert(ps.target().len() > 0);
}

/// Emits `true` on the line of its offset.
pub fn format_true_node(ps: &mut ParserState, start_offset: SourceOffset)
    requires
        old(ps).wf(),
    ensures
        final(ps).wf(),
        emitted_at(old(ps), final(ps), start_offset, seq![116u8, 114u8, 117u8, 101u8]),
{
    let word = [116u8, 114u8, 117u8, 101u8];
    assert(word@ =~= seq![116u8, 114u8, 117u8, 101u8]);
    handle_string_at_offset(ps, &word, start_offset);
}

/// Emits `false` on the line of its offset.
pub fn format_false_node(ps: &mut ParserState, start_offset: SourceOffset)
    requires
        old(ps).wf(),
    ensures
        final(ps).wf(),
        emitted_at(old(ps), final(ps), start_offset, seq![102u8, 97u8, 108u8, 115u8, 101u8]),
{
    let word = [102u8, 97u8, 108u8, 115u8, 101u8];
    assert(word@ =~= seq![102u8, 97u8, 108u8, 115u8, 101u8]);
    handle_string_at_offset(ps, &word, start_offset);
}

/// Emits `__FILE__` on the line of its offset.
pub fn format_source_file_node(ps: &mut ParserState, start_offset: SourceOffset)
    requires
        old(ps).wf(),
    ensures
        final(ps).wf(),
        emitted_at(old(ps), final(ps), start_offset, seq![95u8, 95u8, 70u8, 73u8, 76u8, 69u8, 95u8, 95u8]),
{
    let word = [95u8, 95u8, 70u8, 73u8, 76u8, 69u8, 95u8, 95u8];
    assert(word@ =~= seq![95u8, 95u8, 70u8, 73u8, 76u8, 69u8, 95u8, 95u8]);
    handle_string_at_offset(ps, &word, start_offset);
}

/// Emits `__LINE__` on the line of its offset.
pub fn format_source_line_node(ps: &mut ParserState, start_offset: SourceOffset)
    requires
        old(ps).wf(),
    ensures
        final(ps).wf(),
        emitted_at(old(ps), final(ps), start_offset, seq![95u8, 95u8, 76u8, 73u8, 78u8, 69u8, 95u8, 95u8]),
{
    let word = [95u8, 95u8, 76u8, 73u8, 78u8, 69u8, 95u8, 95u8];
    assert(word@ =~= seq![95u8, 95u8, 76u8, 73u8, 78u8, 69u8, 95u8, 95u8]);
    handle_string_at_offset(ps, &word, start_offset);
}

/// Emits `__ENCODING__` on the line of its offset.
pub fn format_source_encoding_node(ps: &mut ParserState, start_offset: SourceOffset)
    requires
        old(ps).wf(),
    ensures
        final(ps).wf(),
        emitted_at(old(ps), final(ps), start_offset, seq![95u8, 95u8, 69u8, 78u8, 67u8, 79u8, 68u8, 73u8, 78u8, 71u8, 95u8, 95u8]),
{
    let word = [95u8, 95u8, 69u8, 78u8, 67u8, 79u8, 68u8, 73u8, 78u8, 71u8, 95u8, 95u8];
    assert(word@ =~= seq![95u8, 95u8, 69u8, 78u8, 67u8, 79u8, 68u8, 73u8, 78u8, 71u8, 95u8, 95u8]);
    handle_string_at_offset(ps, &word, start_offset);
}

/// Emits the forwarded arguments `...` on the line of its offset.
pub fn format_forwarding_arguments_node(ps: &mut ParserState, start_offset: SourceOffset)
    requires
        old(ps).wf(),
    ensures
        final(ps).wf(),
        emitted_at(old(ps), final(ps), start_offset, seq![46u8, 46u8, 46u8]),
{
    let word = [46u8, 46u8, 46u8];
    assert(word@ =~= seq![46u8, 46u8, 46u8]);
    handle_string_at_offset(ps, &word, start_offset);
}

/// Emits the forwarding parameter `...` on the line of its offset.
pub fn format_forwarding_parameter_node(ps: &mut ParserState, start_offset: SourceOffset)
    requires
        old(ps).wf(),
    ensures
        final(ps).wf(),
        emitted_at(old(ps), final(ps), start_offset, seq![46u8, 46u8, 46u8]),
{
    let word = [46u8, 46u8, 46u8];
    assert(word@ =~= seq![46u8, 46u8, 46u8]);
    handle_string_at_offset(ps, &word, start_offset);
}

/// Emits an integer literal, as written, on the line of its offset.
pub fn format_integer_node(ps: &mut ParserState, text: &[u8], start_offset: SourceOffset)
    requires
        old(ps).wf(),
        text@ != seq![10u8],
    ensures
        final(ps).wf(),
        emitted_at(old(ps), final(ps), start_offset, text@),
{
    handle_string_at_offset(ps, text, start_offset);
}

/// Emits a float literal, as written, on the line of its offset.
pub fn format_float_node(ps: &mut ParserState, text: &[u8], start_offset: SourceOffset)
    requires
        old(ps).wf(),
        text@ != seq![10u8],
    ensures
        final(ps).wf(),
        emitted_at(old(ps), final(ps), start_offset, text@),
{
    handle_string_at_offset(ps, text, start_offset);
}

/// Emits an imaginary literal, as written, on the line of its offset.
pub fn format_imaginary_node(ps: &mut ParserState, text: &[u8], start_offset: SourceOffset)
    requires
        old(ps).wf(),
        text@ != seq![10u8],
    ensures
        final(ps).wf(),
        emitted_at(old(ps), final(ps), start_offset, text@),
{
    handle_string_at_offset(ps, text, start_offset);
}

/// Emits a rational literal, as written, on the line of its offset.
pub fn format_rational_node(ps: &mut ParserState, text: &[u8], start_offset: SourceOffset)
    requires
        old(ps).wf(),
        text@ != seq![10u8],
    ensures
        final(ps).wf(),
        emitted_at(old(ps), final(ps), start_offset, text@),
{
    handle_string_at_offset(ps, text, start_offset);
}

/// Emits the implicit `it` parameter, as written, on the line of its offset.
pub fn format_it_local_variable_read_node(ps: &mut ParserState, text: &[u8], start_offset: SourceOffset)
    requires
        old(ps).wf(),
        text@ != seq![10u8],
    ensures
        final(ps).wf(),
        emitted_at(old(ps), final(ps), start_offset, text@),
{
    handle_string_at_offset(ps, text, start_offset);
}

/// Emits a constant, as written, on the line of its offset.
pub fn format_constant_read_node(ps: &mut ParserState, text: &[u8], start_offset: SourceOffset)
    requires
        old(ps).wf(),
        text@ != seq![10u8],
    ensures
        final(ps).wf(),
        emitted_at(old(ps), final(ps), start_offset, text@),
{
    handle_string_at_offset(ps, text, start_offset);
}

/// Emits a block-local variable, as written, on the line of its offset.
pub fn format_block_local_variable_node(ps: &mut ParserState, text: &[u8], start_offset: SourceOffset)
    requires
        old(ps).wf(),
        text@ != seq![10u8],
    ensures
        final(ps).wf(),
        emitted_at(old(ps), final(ps), start_offset, text@),
{
    handle_string_at_offset(ps, text, start_offset);
}

/// Emits a back reference (`$&`, `$1`...) on the line where it ends.
pub fn format_back_reference_read_node(ps: &mut ParserState, text: &[u8], end_offset: SourceOffset)
    requires
        old(ps).wf(),
        text@ != seq![10u8],
    ensures
        final(ps).wf(),
        emitted_at(old(ps), final(ps), end_offset, text@),
{
    handle_string_at_offset(ps, text, end_offset);
}

/// Emits a class variable as written.
pub fn format_class_variable_read_node(ps: &mut ParserState, name: &[u8])
    requires
        old(ps).wf(),
        name@ != seq![10u8],
    ensures
        final(ps).wf(),
        pushed_one(old(ps).target(), final(ps).target()),
        last_part_is(final(ps), name@),
        final(ps).same_but_target(old(ps)),
{
    ps.emit_ident(name);
}

/// Emits a global variable as written.
pub fn format_global_variable_read_node(ps: &mut ParserState, text: &[u8])
    requires
        old(ps).wf(),
        text@ != seq![10u8],
    ensures
        final(ps).wf(),
        pushed_one(old(ps).target(), final(ps).target()),
        last_part_is(final(ps), text@),
        final(ps).same_but_target(old(ps)),
{
    ps.emit_ident(text);
}

/// Emits an instance variable as written.
pub fn format_instance_variable_read_node(ps: &mut ParserState, name: &[u8])
    requires
        old(ps).wf(),
        name@ != seq![10u8],
    ensures
        final(ps).wf(),
        pushed_one(old(ps).target(), final(ps).target()),
        last_part_is(final(ps), name@),
        final(ps).same_but_target(old(ps)),
{
    ps.emit_ident(name);
}

/// Emits a numbered reference (`$1`) as written.
pub fn format_numbered_reference_read_node(ps: &mut ParserState, text: &[u8])
    requires
        old(ps).wf(),
        text@ != seq![10u8],
    ensures
        final(ps).wf(),
        pushed_one(old(ps).target(), final(ps).target()),
        last_part_is(final(ps), text@),
        final(ps).same_but_target(old(ps)),
{
    ps.emit_ident(text);
}

/// Emits a local variable as written.
pub fn format_local_variable_read_node(ps: &mut ParserState, name: &[u8])
    requires
        old(ps).wf(),
        name@ != seq![10u8],
    ensures
        final(ps).wf(),
        pushed_one(old(ps).target(), final(ps).target()),
        last_part_is(final(ps), name@),
        final(ps).same_but_target(old(ps)),
{
    ps.emit_ident(name);
}

/// Binds a required parameter in the current scope and emits it.
pub fn format_required_parameter_node(ps: &mut ParserState, name: &[u8])
    requires
        old(ps).wf(),
        name@ != seq![10u8],
    ensures
        final(ps).wf(),
        pushed_one(old(ps).target(), final(ps).target()),
        last_part_is(final(ps), name@),
        final(ps).scopes@.last()@.last()@ == name@,
{
    ps.bind_variable(name);
    ps.emit_ident(name);
}

/// Emits a backtick command string: its content between backticks.
pub fn format_x_string_node(ps: &mut ParserState, content: &[u8])
    requires
        old(ps).wf(),
        old(ps).current_orig_line_number + crate::comment_block::newline_count(content@) <= crate::types::LineNumber::MAX,
    ensures
        final(ps).wf(),
        final(ps).target().len() == old(ps).target().len() + 3,
        final(ps).target().take(old(ps).target().len() as int) == old(ps).target(),
        last_part_is(final(ps), seq![96u8]),
        final(ps).target()[old(ps).target().len() as int + 1] matches AbstractLineToken::ConcreteLineToken(
            ConcreteLineToken::LTStringContent { content: c },
        ) && c@ == content@,
        final(ps).current_orig_line_number == old(ps).current_orig_line_number + crate::comment_block::newline_count(
            content@,
        ),
{
    let tick = [96u8];
    assert(tick@ =~= seq![96u8]);
    ps.emit_ident(&tick);
    let ghost t1 = ps.target();
    ps.emit_string_content(content);
    let ghost t2 = ps.target();
    ps.emit_ident(&tick);
    proof {
        let t3 = ps.target();
        assert(t2.take(t1.len() as int) == t1);
        assert(t3.take(t2.len() as int) == t2);
        assert(t3.take(old(ps).target().len() as int) =~= old(ps).target());
        assert(t3[old(ps).target().len() as int + 1] == t2[old(ps).target().len() as int + 1]);
    }
}

/// `t` is a direct part holding `bytes`.
pub open spec fn is_part(t: AbstractLineToken, bytes: Seq<u8>) -> bool {
    match t {
        AbstractLineToken::ConcreteLineToken(ConcreteLineToken::DirectPart { part }) => part@ == bytes,
        _ => false,
    }
}

/// The tokens that `new_t` has after `old_t` are direct parts holding
/// `parts`, in order.
pub open spec fn parts_pushed(old_t: Seq<AbstractLineToken>, new_t: Seq<AbstractLineToken>, parts: Seq<Seq<u8>>) -> bool {
    &&& new_t.len() == old_t.len() + parts.len()
    &&& new_t.take(old_t.len() as int) == old_t
    &&& forall|k: int| 0 <= k < parts.len() ==> is_part(#[trigger] new_t[old_t.len() + k], parts[k])
}

proof fn lemma_parts_pushed_one(
    a: Seq<AbstractLineToken>,
    b: Seq<AbstractLineToken>,
    c: Seq<AbstractLineToken>,
    p: Seq<Seq<u8>>,
    x: Seq<u8>,
)
    requires
        parts_pushed(a, b, p),
        pushed_one(b, c),
        is_part(c.last(), x),
    ensures
        parts_pushed(a, c, p.push(x)),
{
    assert(c.take(a.len() as int) =~= b.take(a.len() as int));
    assert forall|k: int| 0 <= k < p.push(x).len() implies is_part(#[trigger] c[a.len() + k], p.push(x)[k]) by {
        if k < p.len() {
            assert(c[a.len() + k] == b[a.len() + k]);
        }
    }
}

/// The bytes behind an optional slice.
pub open spec fn opt_bytes(o: Option<&[u8]>) -> Option<Seq<u8>> {
    match o {
        Some(b) => Some(b@),
        None => None,
    }
}

/// A symbol written with single quotes (`:'foo'`).
pub open spec fn single_quoted_symbol(opening: Option<Seq<u8>>) -> bool {
    opening == Some(seq![58u8, 39u8])
}

/// What a symbol that is not single-quoted is written as: its opening, its
/// value and its closing as written, the closing without the `:` of a
/// shorthand hash key, each where there is one.
pub open spec fn symbol_parts(opening: Option<Seq<u8>>, value: Option<Seq<u8>>, closing: Option<Seq<u8>>) -> Seq<Seq<u8>> {
    let a = match opening {
        Some(o) => seq![o],
        None => Seq::empty(),
    };
    let b = match value {
        Some(v) => seq![v],
        None => Seq::empty(),
    };
    let c = match closing {
        Some(c) => if strip_colon(c).len() > 0 {
            seq![strip_colon(c)]
        } else {
            Seq::empty()
        },
        None => Seq::empty(),
    };
    a + b + c
}

/// Emits a symbol. A single-quoted one (`:'foo'`) becomes double-quoted:
/// `:`, a double quote, its value turned into double-quoted content (if it
/// has one), a double quote. Any other is written as it is, without the `:`
/// that ends a shorthand hash key.
pub fn format_symbol_node(ps: &mut ParserState, opening: Option<&[u8]>, value: Option<&[u8]>, closing: Option<&[u8]>)
    requires
        old(ps).wf(),
        single_quoted_symbol(opt_bytes(opening)) ==> (closing matches Some(c) && c@.len() > 0 && (value matches Some(
            v,
        ) ==> old(ps).current_orig_line_number + crate::comment_block::newline_count(
            crate::string_escape::spec_single_to_double_quoted(v@, seq![58u8, 39u8], c@),
        ) <= crate::types::LineNumber::MAX)),
        !single_quoted_symbol(opt_bytes(opening)) ==> forall|k: int|
            0 <= k < symbol_parts(opt_bytes(opening), opt_bytes(value), opt_bytes(closing)).len()
                ==> #[trigger] symbol_parts(opt_bytes(opening), opt_bytes(value), opt_bytes(closing))[k]
                != seq![10u8],
    ensures
        final(ps).wf(),
        !single_quoted_symbol(opt_bytes(opening)) ==> {
            &&& parts_pushed(
                old(ps).target(),
                final(ps).target(),
                symbol_parts(opt_bytes(opening), opt_bytes(value), opt_bytes(closing)),
            )
            &&& final(ps).same_but_target(old(ps))
        },
        single_quoted_symbol(opt_bytes(opening)) ==> {
            let t = final(ps).target();
            let n = old(ps).target().len() as int;
            &&& t.take(n) == old(ps).target()
            &&& t.len() == n + if value is Some {
                4int
            } else {
                3int
            }
            &&& is_part(t[n], seq![58u8])
            &&& t[n + 1] == AbstractLineToken::ConcreteLineToken(ConcreteLineToken::DoubleQuote)
            &&& t.last() == AbstractLineToken::ConcreteLineToken(ConcreteLineToken::DoubleQuote)
            &&& (value matches Some(v) ==> (t[n + 2] matches AbstractLineToken::ConcreteLineToken(
                ConcreteLineToken::LTStringContent { content },
            ) && content@ == crate::string_escape::spec_single_to_double_quoted(
                v@,
                seq![58u8, 39u8],
                closing.unwrap()@,
            )))
        },
{
    let sq: [u8; 2] = [58u8, 39u8];
    assert(sq@ == seq![58u8, 39u8]);
    let is_single_quoted = match opening {
        Some(o) => bytes_are(o, sq.as_slice()),
        None => false,
    };
    let ghost t0 = ps.target();
    let ghost n = t0.len() as int;
    if is_single_quoted {
        let colon: [u8; 1] = [58u8];
        assert(colon@ == seq![58u8]);
        ps.emit_ident(colon.as_slice());
        let ghost t1 = ps.target();
        ps.emit_double_quote();
        let ghost t2 = ps.target();
        assert(t2.take(n) =~= t0) by {
            assert(t1.take(n) =~= t0);
            assert(t2.take(t1.len() as int) == t1);
        }
        assert(t2[n] == t1[n]);
        match value {
            Some(v) => {
                let c = closing.unwrap();
                let escaped = crate::string_escape::single_to_double_quoted(v, sq.as_slice(), c);
                let e: &[u8] = match &escaped {
                    std::borrow::Cow::Borrowed(b) => b,
                    std::borrow::Cow::Owned(o) => o.as_slice(),
                };
                ps.emit_string_content(e);
                let ghost t3 = ps.target();
                ps.emit_double_quote();
                proof {
                    let t4 = ps.target();
                    assert(t3.take(t2.len() as int) == t2);
                    assert(t4.take(t3.len() as int) == t3);
                    assert(t4.take(n) =~= t0);
                    assert(t4[n] == t2[n]);
                    assert(t4[n + 1] == t2[n + 1]);
                    assert(t4[n + 2] == t3[n + 2]);
                }
            },
            None => {
                ps.emit_double_quote();
                proof {
                    let t3 = ps.target();
                    assert(t3.take(n) =~= t0);
                    assert(t3[n] == t2[n]);
                    assert(t3[n + 1] == t2[n + 1]);
                }
            },
        }
    } else {
        let ghost parts = symbol_parts(opt_bytes(opening), opt_bytes(value), opt_bytes(closing));
        let ghost mut pushed: Seq<Seq<u8>> = Seq::empty();
        assert(t0.take(n) =~= t0);
        assert(parts_pushed(t0, ps.target(), pushed));
        match opening {
            Some(o) => {
                assert(parts[0] == o@);
                let ghost b = ps.target();
                ps.emit_ident(o);
                proof {
                    lemma_parts_pushed_one(t0, b, ps.target(), pushed, o@);
                    pushed = pushed.push(o@);
                }
            },
            None => {},
        }
        match value {
            Some(v) => {
                assert(parts[pushed.len() as int] == v@);
                let ghost b = ps.target();
                ps.emit_ident(v);
                proof {
                    lemma_parts_pushed_one(t0, b, ps.target(), pushed, v@);
                    pushed = pushed.push(v@);
                }
            },
            None => {},
        }
        assert(pushed =~= parts.take(pushed.len() as int));
        match closing {
            Some(c) => {
                let ghost b = ps.target();
                proof {
                    if strip_colon(c@).len() > 0 {
                        assert(parts[pushed.len() as int] == strip_colon(c@));
                    }
                }
                emit_symbol_key_closer(ps, c);
                proof {
                    if strip_colon(c@).len() > 0 {
                        lemma_parts_pushed_one(t0, b, ps.target(), pushed, strip_colon(c@));
                        pushed = pushed.push(strip_colon(c@));
                    }
                }
            },
            None => {},
        }
        assert(pushed =~= parts);
    }
}

/// Emits a literal between its delimiters: the opening as written, the
/// content as string content, the closing as written.
fn emit_delimited_literal(ps: &mut ParserState, opening: &[u8], content: &[u8], closing: &[u8])
    requires
        old(ps).wf(),
        opening@ != seq![10u8],
        closing@ != seq![10u8],
        old(ps).current_orig_line_number + crate::comment_block::newline_count(content@) <= crate::types::LineNumber::MAX,
    ensures
        final(ps).wf(),
        final(ps).target().len() == old(ps).target().len() + 3,
        final(ps).target().take(old(ps).target().len() as int) == old(ps).target(),
        final(ps).target()[old(ps).target().len() as int] matches AbstractLineToken::ConcreteLineToken(
            ConcreteLineToken::DirectPart { part },
        ) && part@ == opening@,
        final(ps).target()[old(ps).target().len() as int + 1] matches AbstractLineToken::ConcreteLineToken(
            ConcreteLineToken::LTStringContent { content: c },
        ) && c@ == content@,
        last_part_is(final(ps), closing@),
        final(ps).current_orig_line_number == old(ps).current_orig_line_number + crate::comment_block::newline_count(
            content@,
        ),
{
    ps.emit_ident(opening);
    let ghost t1 = ps.target();
    ps.emit_string_content(content);
    let ghost t2 = ps.target();
    ps.emit_ident(closing);
    proof {
        let t3 = ps.target();
        let n = old(ps).target().len() as int;
        assert(t2.take(t1.len() as int) == t1);
        assert(t3.take(t2.len() as int) == t2);
        assert(t3.take(n) =~= old(ps).target());
        assert(t3[n + 1] == t2[n + 1]);
        assert(t3[n] == t2[n]);
        assert(t2[n] == t1[n]);
    }
}

/// Emits a regular expression literal: its opening as written, its content
/// as string content, its closing (with any flags) as written.
pub fn format_regular_expression_node(ps: &mut ParserState, opening: &[u8], content: &[u8], closing: &[u8])
    requires
        old(ps).wf(),
        opening@ != seq![10u8],
        closing@ != seq![10u8],
        old(ps).current_orig_line_number + crate::comment_block::newline_count(content@) <= crate::types::LineNumber::MAX,
    ensures
        final(ps).wf(),
        final(ps).target().len() == old(ps).target().len() + 3,
        final(ps).target().take(old(ps).target().len() as int) == old(ps).target(),
        final(ps).target()[old(ps).target().len() as int] matches AbstractLineToken::ConcreteLineToken(
            ConcreteLineToken::DirectPart { part },
        ) && part@ == opening@,
        final(ps).target()[old(ps).target().len() as int + 1] matches AbstractLineToken::ConcreteLineToken(
            ConcreteLineToken::LTStringContent { content: c },
        ) && c@ == content@,
        last_part_is(final(ps), closing@),
        final(ps).current_orig_line_number == old(ps).current_orig_line_number + crate::comment_block::newline_count(
            content@,
        ),
{
    emit_delimited_literal(ps, opening, content, closing);
}

/// Emits a regular expression that stands as a condition on its own
/// (matching the last line read), as written, like any regular expression.
pub fn format_match_last_line_node(ps: &mut ParserState, opening: &[u8], content: &[u8], closing: &[u8])
    requires
        old(ps).wf(),
        opening@ != seq![10u8],
        closing@ != seq![10u8],
        old(ps).current_orig_line_number + crate::comment_block::newline_count(content@) <= crate::types::LineNumber::MAX,
    ensures
        final(ps).wf(),
        final(ps).target().len() == old(ps).target().len() + 3,
        final(ps).target().take(old(ps).target().len() as int) == old(ps).target(),
        final(ps).target()[old(ps).target().len() as int] matches AbstractLineToken::ConcreteLineToken(
            ConcreteLineToken::DirectPart { part },
        ) && part@ == opening@,
        final(ps).target()[old(ps).target().len() as int + 1] matches AbstractLineToken::ConcreteLineToken(
            ConcreteLineToken::LTStringContent { content: c },
        ) && c@ == content@,
        last_part_is(final(ps), closing@),
        final(ps).current_orig_line_number == old(ps).current_orig_line_number + crate::comment_block::newline_count(
            content@,
        ),
{
    emit_delimited_literal(ps, opening, content, closing);
}

/// Emits `**nil` (no keyword arguments accepted) on the line of its offset,
/// behind a soft indent.
pub fn format_no_keywords_parameter_node(ps: &mut ParserState, start_offset: SourceOffset)
    requires
        old(ps).wf(),
        old(ps).breakable_entry_stack@.len() > 0,
    ensures
        final(ps).wf(),
        exists|s: ParserState|
            #![trigger s.same_but_target(old(ps))]
            s.target() == old(ps).target().push(AbstractLineToken::SoftIndent { depth: old(ps).spec_current_spaces() })
                && s.same_but_target(old(ps)) && emitted_at(&s, final(ps), start_offset, seq![42u8, 42u8, 110u8, 105u8, 108u8]),
{
    ps.emit_soft_indent();
    let ghost s = *ps;
    let word = [42u8, 42u8, 110u8, 105u8, 108u8];
    assert(word@ =~= seq![42u8, 42u8, 110u8, 105u8, 108u8]);
    handle_string_at_offset(ps, &word, start_offset);
    assert(emitted_at(&s, &*ps, start_offset, seq![42u8, 42u8, 110u8, 105u8, 108u8]));
}

/// Emits a keyword rest parameter behind a soft indent: `**` and the name,
/// which is bound in the current scope, if it has one.
pub fn format_keyword_rest_parameter_node(ps: &mut ParserState, name: Option<&[u8]>)
    requires
        old(ps).wf(),
        old(ps).breakable_entry_stack@.len() > 0,
        (name matches Some(n) ==> n@ != seq![10u8]),
    ensures
        final(ps).wf(),
        final(ps).frame() == old(ps).frame(),
        (match name {
            Some(n) => {
                &&& final(ps).target().len() == old(ps).target().len() + 3
                &&& final(ps).target()[old(ps).target().len() as int + 1] matches AbstractLineToken::ConcreteLineToken(
                    ConcreteLineToken::DirectPart { part },
                ) && part@ == seq![42u8, 42u8]
                &&& last_part_is(final(ps), n@)
                &&& final(ps).scopes@.last()@.last()@ == n@
            },
            None => {
                &&& final(ps).target().len() == old(ps).target().len() + 2
                &&& last_part_is(final(ps), seq![42u8, 42u8])
                &&& final(ps).scopes == old(ps).scopes
            },
        }),
        final(ps).target().take(old(ps).target().len() as int) == old(ps).target(),
        final(ps).target()[old(ps).target().len() as int] == (AbstractLineToken::SoftIndent {
            depth: old(ps).spec_current_spaces(),
        }),
{
    ps.emit_soft_indent();
    let stars = [42u8, 42u8];
    assert(stars@ =~= seq![42u8, 42u8]);
    let ghost t1 = ps.target();
    ps.emit_ident(&stars);
    let ghost t2 = ps.target();
    match name {
        Some(n) => {
            ps.bind_variable(n);
            assert(ps.target() == t2);
            ps.emit_ident(n);
            proof {
                let t3 = ps.target();
                let m = old(ps).target().len() as int;
                assert(t2.take(t1.len() as int) == t1);
                assert(t1.take(m) =~= old(ps).target());
                assert(t2.take(m) =~= t1.take(m));
                assert(t3.take(t2.len() as int) == t2);
                assert(t3[t1.len() as int] == t2[t1.len() as int]);
                assert(t3.take(old(ps).target().len() as int) =~= old(ps).target());
                assert(t3[old(ps).target().len() as int] == t1[old(ps).target().len() as int]);
            }
        },
        None => {
            proof {
                assert(t2.take(old(ps).target().len() as int) =~= old(ps).target());
                assert(t2[old(ps).target().len() as int] == t1[old(ps).target().len() as int]);
            }
        },
    }
}

/// Binds a required keyword parameter in the current scope and emits it with
/// its colon.
pub fn format_required_keyword_parameter_node(ps: &mut ParserState, name: &[u8])
    requires
        old(ps).wf(),
        name@ != seq![10u8],
    ensures
        final(ps).wf(),
        final(ps).target().len() == old(ps).target().len() + 2,
        final(ps).target().take(old(ps).target().len() as int) == old(ps).target(),
        final(ps).target()[old(ps).target().len() as int] matches AbstractLineToken::ConcreteLineToken(
            ConcreteLineToken::DirectPart { part },
        ) && part@ == name@,
        last_part_is(final(ps), seq![58u8]),
        final(ps).scopes@.last()@.last()@ == name@,
{
    ps.bind_variable(name);
    ps.emit_ident(name);
    let ghost t1 = ps.target();
    let colon = [58u8];
    assert(colon@ =~= seq![58u8]);
    ps.emit_ident(&colon);
    proof {
        let t2 = ps.target();
        assert(t2.take(t1.len() as int) == t1);
        assert(t2[old(ps).target().len() as int] == t1[old(ps).target().len() as int]);
        assert(t2.take(old(ps).target().len() as int) =~= old(ps).target());
    }
}

/// Binds the local variable that an assignment targets and emits it.
pub fn format_local_variable_target_node(ps: &mut ParserState, name: &[u8])
    requires
        old(ps).wf(),
        name@ != seq![10u8],
    ensures
        final(ps).wf(),
        pushed_one(old(ps).target(), final(ps).target()),
        last_part_is(final(ps), name@),
        final(ps).scopes@.last()@.last()@ == name@,
{
    ps.bind_variable(name);
    ps.emit_ident(name);
}

/// Emits the global variable that an assignment targets, as written.
pub fn format_global_variable_target_node(ps: &mut ParserState, name: &[u8])
    requires
        old(ps).wf(),
        name@ != seq![10u8],
    ensures
        final(ps).wf(),
        pushed_one(old(ps).target(), final(ps).target()),
        last_part_is(final(ps), name@),
        final(ps).same_but_target(old(ps)),
{
    ps.emit_ident(name);
}

/// Emits the instance variable that an assignment targets, as written.
pub fn format_instance_variable_target_node(ps: &mut ParserState, name: &[u8])
    requires
        old(ps).wf(),
        name@ != seq![10u8],
    ensures
        final(ps).wf(),
        pushed_one(old(ps).target(), final(ps).target()),
        last_part_is(final(ps), name@),
        final(ps).same_but_target(old(ps)),
{
    ps.emit_ident(name);
}

/// Emits the class variable that an assignment targets, as written.
pub fn format_class_variable_target_node(ps: &mut ParserState, name: &[u8])
    requires
        old(ps).wf(),
        name@ != seq![10u8],
    ensures
        final(ps).wf(),
        pushed_one(old(ps).target(), final(ps).target()),
        last_part_is(final(ps), name@),
        final(ps).same_but_target(old(ps)),
{
    ps.emit_ident(name);
}

/// Emits the constant that an assignment targets on the line of its offset.
pub fn format_constant_target_node(ps: &mut ParserState, name: &[u8], start_offset: SourceOffset)
    requires
        old(ps).wf(),
        name@ != seq![10u8],
    ensures
        final(ps).wf(),
        emitted_at(old(ps), final(ps), start_offset, name@),
{
    handle_string_at_offset(ps, name, start_offset);
}

/// The implicit `it` parameter: its uses are formatted where they stand.
pub fn format_it_parameters_node() {
}

/// The implicit value of a hash shorthand (`{ a: }`): nothing to write.
pub fn format_implicit_node() {
}

/// The trailing comma of block parameters (`|x,|`): written with the other
/// parameters.
pub fn format_implicit_rest_node() {
}

/// The implicit numbered parameters: their uses are formatted where they
/// stand.
pub fn format_numbered_parameters_node() {
}

/// An empty pair of parentheses: `()` or `( )` holding no statement.
pub open spec fn empty_parentheses(node: SyntaxNode) -> bool {
    match node.kind {
        SyntaxKind::Parentheses { body: None } => true,
        SyntaxKind::Parentheses { body: Some(b) } => match b.kind {
            SyntaxKind::Statements { body } => body@.len() == 0,
            _ => false,
        },
        _ => false,
    }
}

/// Checks if a node is an empty pair of parentheses (like `()` in `foo ()`),
/// which stands for no arguments at all.
pub fn is_empty_parentheses_node(node: &SyntaxNode) -> (r: bool)
    ensures
        r == empty_parentheses(*node),
{
    match &node.kind {
        SyntaxKind::Parentheses { body: None } => true,
        SyntaxKind::Parentheses { body: Some(b) } => match &b.kind {
            SyntaxKind::Statements { body } => body.len() == 0,
            _ => false,
        },
        _ => false,
    }
}

/// A Ruby keyword expression: one that is a syntax error directly inside the
/// parentheses of a method call (`foo(a if b)`), so its own parentheses stay.
pub open spec fn keyword_expression(node: SyntaxNode) -> bool {
    match node.kind {
        SyntaxKind::If { has_keyword } => has_keyword,
        SyntaxKind::Unless | SyntaxKind::While { .. } | SyntaxKind::Until { .. }
        | SyntaxKind::RescueModifier => true,
        SyntaxKind::And { operator } => operator@ == seq![97u8, 110u8, 100u8],
        SyntaxKind::Or { operator } => operator@ == seq![111u8, 114u8],
        SyntaxKind::Case | SyntaxKind::CaseMatch | SyntaxKind::Begin | SyntaxKind::For
        | SyntaxKind::LocalVariableWrite => true,
        _ => false,
    }
}

/// `s` holds exactly the bytes of `lit`.
fn bytes_are(s: &[u8], lit: &[u8]) -> (r: bool)
    ensures
        r == (s@ == lit@),
{
    if s.len() != lit.len() {
        return false;
    }
    let mut i: usize = 0;
    while i < s.len()
        invariant
            s@.len() == lit@.len(),
            i <= s@.len(),
            forall|k: int| 0 <= k < i ==> s@[k] == lit@[k],
        decreases s@.len() - i,
    {
        if s[i] != lit[i] {
            return false;
        }
        i = i + 1;
    }
    assert(s@ =~= lit@);
    true
}

/// Returns true if this node is a Ruby keyword expression that would be a
/// syntax error directly inside method call parentheses. `&&` and `||` are
/// fine there; the `and` and `or` keywords are not.
pub fn is_keyword_expression(node: &SyntaxNode) -> (r: bool)
    ensures
        r == keyword_expression(*node),
{
    match &node.kind {
        SyntaxKind::If { has_keyword } => *has_keyword,
        SyntaxKind::Unless => true,
        SyntaxKind::While { .. } | SyntaxKind::Until { .. } => true,
        SyntaxKind::RescueModifier => true,
        SyntaxKind::And { operator } => {
            let and_kw: [u8; 3] = [97u8, 110u8, 100u8];
            let r = bytes_are(operator.as_slice(), and_kw.as_slice());
            assert(and_kw@ == seq![97u8, 110u8, 100u8]);
            r
        },
        SyntaxKind::Or { operator } => {
            let or_kw: [u8; 2] = [111u8, 114u8];
            let r = bytes_are(operator.as_slice(), or_kw.as_slice());
            assert(or_kw@ == seq![111u8, 114u8]);
            r
        },
        SyntaxKind::Case | SyntaxKind::CaseMatch => true,
        SyntaxKind::Begin => true,
        SyntaxKind::For => true,
        SyntaxKind::LocalVariableWrite => true,
        _ => false,
    }
}

/// The expression that a parenthesised single argument stands for: the one
/// statement inside, unwrapped again while it is itself such a pair of
/// parentheses. Nothing where the parentheses hold no statement or more than
/// one, or where the statement is a keyword expression.
pub open spec fn unwrapped_paren(node: SyntaxNode) -> Option<SyntaxNode>
    decreases node,
{
    match node.kind {
        SyntaxKind::Parentheses { body: Some(b) } => match b.kind {
            SyntaxKind::Statements { body } => if body@.len() == 1 && !keyword_expression(body@[0]) {
                let inner = body@[0];
                if inner.kind is Parentheses && unwrapped_paren(inner) is Some {
                    unwrapped_paren(inner)
                } else {
                    Some(inner)
                }
            } else {
                None
            },
            _ => None,
        },
        _ => None,
    }
}

/// Returns the inner expression if this is a pair of parentheses around a
/// single expression that can be unwrapped when used as a method argument.
pub fn unwrap_single_arg_paren(node: &SyntaxNode) -> (r: Option<&SyntaxNode>)
    ensures
        match r {
            Some(x) => unwrapped_paren(*node) == Some(*x),
            None => unwrapped_paren(*node) is None,
        },
    decreases node,
{
    match &node.kind {
        SyntaxKind::Parentheses { body: Some(b) } => match &b.kind {
            SyntaxKind::Statements { body } => {
                if body.len() != 1 {
                    return None;
                }
                let inner = &body[0];
                if is_keyword_expression(inner) {
                    return None;
                }
                if matches!(&inner.kind, SyntaxKind::Parentheses { .. }) {
                    match unwrap_single_arg_paren(inner) {
                        Some(deeper) => {
                            return Some(deeper);
                        },
                        None => {},
                    }
                }
                Some(inner)
            },
            _ => None,
        },
        _ => None,
    }
}

/// A node that may be laid out over several lines: `case`, `begin`,
/// `unless`, an `if` with its keyword, a `while` or `until` with an `end`,
/// `for`, and definitions.
pub open spec fn multilinable(node: SyntaxNode) -> bool {
    match node.kind {
        SyntaxKind::Case | SyntaxKind::CaseMatch | SyntaxKind::Begin | SyntaxKind::Unless => true,
        SyntaxKind::If { has_keyword } => has_keyword,
        SyntaxKind::While { has_closing } => has_closing,
        SyntaxKind::Until { has_closing } => has_closing,
        SyntaxKind::For | SyntaxKind::Def | SyntaxKind::Class | SyntaxKind::Module => true,
        _ => false,
    }
}

pub fn is_multilinable_node(node: &SyntaxNode) -> (r: bool)
    ensures
        r == multilinable(*node),
{
    match &node.kind {
        SyntaxKind::Case | SyntaxKind::CaseMatch | SyntaxKind::Begin => true,
        SyntaxKind::Unless => true,
        SyntaxKind::If { has_keyword } => *has_keyword,
        SyntaxKind::While { has_closing } => *has_closing,
        SyntaxKind::Until { has_closing } => *has_closing,
        SyntaxKind::For | SyntaxKind::Def | SyntaxKind::Class | SyntaxKind::Module => true,
        _ => false,
    }
}

/// A `def`, or a receiverless call whose one argument is itself a def
/// modifier, such as `public def foo` or `private_class public def foo`.
pub open spec fn def_modifier(node: SyntaxNode) -> bool
    decreases node,
{
    match node.kind {
        SyntaxKind::Def => true,
        SyntaxKind::Call(c) => match c.arguments {
            Some(args) => c.receiver is None && args@.len() == 1 && def_modifier(args@[0]),
            None => false,
        },
        _ => false,
    }
}

pub fn is_def_modifier_node(node: &SyntaxNode) -> (r: bool)
    ensures
        r == def_modifier(*node),
    decreases node,
{
    match &node.kind {
        SyntaxKind::Def => true,
        SyntaxKind::Call(c) => {
            if c.receiver.is_none() {
                match &c.arguments {
                    Some(args) => {
                        if args.len() == 1 {
                            is_def_modifier_node(&args[0])
                        } else {
                            false
                        }
                    },
                    None => false,
                }
            } else {
                false
            }
        },
        _ => false,
    }
}

/// The last condition of a `when` is an endless range (`when 1..`).
pub open spec fn ends_with_endless_range(conditions: Seq<SyntaxNode>) -> bool {
    &&& conditions.len() > 0
    &&& conditions.last().kind matches SyntaxKind::Range { has_right }
    &&& !conditions.last().kind->Range_has_right
}

pub fn when_conditions_end_with_endless_range(conditions: &[SyntaxNode]) -> (r: bool)
    ensures
        r == ends_with_endless_range(conditions@),
{
    let n = conditions.len();
    if n == 0 {
        return false;
    }
    match &conditions[n - 1].kind {
        SyntaxKind::Range { has_right } => !*has_right,
        _ => false,
    }
}

/// `s` begins with the bytes of `lit`.
fn bytes_start_with(s: &[u8], lit: &[u8]) -> (r: bool)
    ensures
        r == (lit@.len() <= s@.len() && s@.take(lit@.len() as int) == lit@),
{
    if lit.len() > s.len() {
        return false;
    }
    let mut i: usize = 0;
    while i < lit.len()
        invariant
            lit@.len() <= s@.len(),
            i <= lit@.len(),
            forall|k: int| 0 <= k < i ==> s@[k] == lit@[k],
        decreases lit@.len() - i,
    {
        if s[i] != lit[i] {
            assert(s@.take(lit@.len() as int)[i as int] != lit@[i as int]);
            return false;
        }
        i = i + 1;
    }
    assert(s@.take(lit@.len() as int) =~= lit@);
    true
}

/// The methods of RSpec whose parentheses are left out before a block:
/// `it` and `describe`.
pub open spec fn rspec_method(name: Seq<u8>) -> bool {
    name == seq![105u8, 116u8] || name == seq![100u8, 101u8, 115u8, 99u8, 114u8, 105u8, 98u8, 101u8]
}

/// The methods of a Gemfile, whose parentheses are kept as written: `gem`,
/// `source`, `ruby` and `group`.
pub open spec fn gemfile_method(name: Seq<u8>) -> bool {
    ||| name == seq![103u8, 101u8, 109u8]
    ||| name == seq![115u8, 111u8, 117u8, 114u8, 99u8, 101u8]
    ||| name == seq![114u8, 117u8, 98u8, 121u8]
    ||| name == seq![103u8, 114u8, 111u8, 117u8, 112u8]
}

/// The methods whose parentheses are kept as written: `super`, `require`
/// and `require_relative`.
pub open spec fn optionally_parenthesized_method(name: Seq<u8>) -> bool {
    ||| name == seq![115u8, 117u8, 112u8, 101u8, 114u8]
    ||| name == seq![114u8, 101u8, 113u8, 117u8, 105u8, 114u8, 101u8]
    ||| name == seq![
        114u8, 101u8, 113u8, 117u8, 105u8, 114u8, 101u8, 95u8, 114u8, 101u8, 108u8, 97u8, 116u8,
        105u8, 118u8, 101u8,
    ]
}

pub fn is_rspec_method(name: &[u8]) -> (r: bool)
    ensures
        r == rspec_method(name@),
{
    let it: [u8; 2] = [105u8, 116u8];
    let describe: [u8; 8] = [100u8, 101u8, 115u8, 99u8, 114u8, 105u8, 98u8, 101u8];
    assert(it@ == seq![105u8, 116u8]);
    assert(describe@ == seq![100u8, 101u8, 115u8, 99u8, 114u8, 105u8, 98u8, 101u8]);
    bytes_are(name, it.as_slice()) || bytes_are(name, describe.as_slice())
}

pub fn is_gemfile_method(name: &[u8]) -> (r: bool)
    ensures
        r == gemfile_method(name@),
{
    let gem: [u8; 3] = [103u8, 101u8, 109u8];
    let source: [u8; 6] = [115u8, 111u8, 117u8, 114u8, 99u8, 101u8];
    let ruby: [u8; 4] = [114u8, 117u8, 98u8, 121u8];
    let group: [u8; 5] = [103u8, 114u8, 111u8, 117u8, 112u8];
    assert(gem@ == seq![103u8, 101u8, 109u8]);
    assert(source@ == seq![115u8, 111u8, 117u8, 114u8, 99u8, 101u8]);
    assert(ruby@ == seq![114u8, 117u8, 98u8, 121u8]);
    assert(group@ == seq![103u8, 114u8, 111u8, 117u8, 112u8]);
    bytes_are(name, gem.as_slice()) || bytes_are(name, source.as_slice()) || bytes_are(
        name,
        ruby.as_slice(),
    ) || bytes_are(name, group.as_slice())
}

pub fn is_optionally_parenthesized_method(name: &[u8]) -> (r: bool)
    ensures
        r == optionally_parenthesized_method(name@),
{
    let sup: [u8; 5] = [115u8, 117u8, 112u8, 101u8, 114u8];
    let req: [u8; 7] = [114u8, 101u8, 113u8, 117u8, 105u8, 114u8, 101u8];
    let req_rel: [u8; 16] = [
        114u8, 101u8, 113u8, 117u8, 105u8, 114u8, 101u8, 95u8, 114u8, 101u8, 108u8, 97u8, 116u8,
        105u8, 118u8, 101u8,
    ];
    assert(sup@ == seq![115u8, 117u8, 112u8, 101u8, 114u8]);
    assert(req@ == seq![114u8, 101u8, 113u8, 117u8, 105u8, 114u8, 101u8]);
    assert(req_rel@ == seq![
        114u8, 101u8, 113u8, 117u8, 105u8, 114u8, 101u8, 95u8, 114u8, 101u8, 108u8, 97u8, 116u8,
        105u8, 118u8, 101u8,
    ]);
    bytes_are(name, sup.as_slice()) || bytes_are(name, req.as_slice()) || bytes_are(
        name,
        req_rel.as_slice(),
    )
}

/// The call has arguments, an empty pair of parentheses not counting as one.
pub open spec fn has_real_arguments(call: CallNode) -> bool {
    match call.arguments {
        Some(args) => !(args@.len() == 0 || (args@.len() == 1 && empty_parentheses(args@[0]))),
        None => false,
    }
}

/// The call's block is a `{ ... }` block.
pub open spec fn has_brace_block(call: CallNode) -> bool {
    match call.block {
        Some(b) => match b.kind {
            SyntaxKind::Block { opening, .. } => opening@ != seq![100u8, 111u8],
            _ => false,
        },
        None => false,
    }
}

/// The call's block is a `do ... end` or `{ ... }` block (not `&blk`).
pub open spec fn has_block_node(call: CallNode) -> bool {
    match call.block {
        Some(b) => b.kind is Block,
        None => false,
    }
}

/// The call's block is a block argument (`&blk`).
pub open spec fn block_is_argument(call: CallNode) -> bool {
    match call.block {
        Some(b) => b.kind is BlockArgument,
        None => false,
    }
}

/// The call's receiver is `self`.
pub open spec fn receiver_is_self(call: CallNode) -> bool {
    match call.receiver {
        Some(r) => r.kind is SelfNode,
        None => false,
    }
}

/// The call's receiver is the constant `RSpec`.
pub open spec fn receiver_is_rspec(call: CallNode) -> bool {
    match call.receiver {
        Some(r) => match r.kind {
            SyntaxKind::ConstantRead { name } => name@ == seq![82u8, 83u8, 112u8, 101u8, 99u8],
            _ => false,
        },
        None => false,
    }
}

/// Some argument of the call is a splat or forwarded arguments.
pub open spec fn arguments_spread(call: CallNode) -> bool {
    match call.arguments {
        Some(args) => exists|k: int|
            0 <= k < args@.len() && (#[trigger] args@[k].kind is Splat || args@[k].kind is ForwardingArguments),
        None => false,
    }
}

/// The innermost scope of `ps` binds `name`.
pub open spec fn scope_binds(ps: &ParserState, name: Seq<u8>) -> bool {
    exists|j: int| 0 <= j < ps.scopes@.last()@.len() && (#[trigger] ps.scopes@.last()@[j])@ == name
}

/// Whether a call is written with parentheses around its arguments. In order:
/// never an empty `()` before a lone block argument; always for a capitalised
/// method at the end of a chain (`Foo()` is no constant), unless it has a
/// block and neither arguments nor receiver; `attr_*` in a class body and
/// receiverless calls of a name that is also a local variable keep what was
/// written; `self.x` at the end of a chain, where `x` is a local variable,
/// gets them; `raise` only where the context needs them or a splat or
/// forwarded arguments follow; `super`, `require`, `require_relative` and the
/// Gemfile methods keep what was written; none without arguments; always with
/// a brace block; none for RSpec's `it` and `describe` with a block, nor for
/// `RSpec.describe`; in a class body not where none were written; else always.
pub open spec fn parens_for_call(
    ps: &ParserState,
    call: CallNode,
    name: Seq<u8>,
    is_terminal_call: bool,
    context: FormattingContext,
) -> bool {
    let used = call.has_opening;
    let has_args = has_real_arguments(call);
    if !has_args && block_is_argument(call) {
        false
    } else if is_terminal_call && name.len() > 0 && 65 <= name[0] <= 90 {
        !(!has_args && call.block is Some && call.receiver is None)
    } else if name.len() >= 5 && name.take(5) == seq![97u8, 116u8, 116u8, 114u8, 95u8]
        && context == FormattingContext::ClassOrModule {
        used
    } else if scope_binds(ps, name) && call.receiver is None {
        used
    } else if scope_binds(ps, name) && is_terminal_call && receiver_is_self(call) {
        true
    } else if name == seq![114u8, 97u8, 105u8, 115u8, 101u8] {
        ||| ps.formatting_context@.last() == FormattingContext::Binary
        ||| ps.formatting_context@.last() == FormattingContext::IfOp
        ||| arguments_spread(call)
    } else if optionally_parenthesized_method(name) || gemfile_method(name) {
        used
    } else if !has_args {
        false
    } else if has_brace_block(call) {
        true
    } else if rspec_method(name) && call.receiver is None && has_block_node(call) {
        false
    } else if receiver_is_rspec(call) && name == seq![
        100u8,
        101u8,
        115u8,
        99u8,
        114u8,
        105u8,
        98u8,
        101u8,
    ] {
        false
    } else if context == FormattingContext::ClassOrModule && !used {
        false
    } else {
        true
    }
}

/// Whether any argument is a splat or forwarded arguments.
fn any_splat_or_forwarding(args: &Vec<SyntaxNode>) -> (r: bool)
    ensures
        r == exists|k: int|
            0 <= k < args@.len() && (#[trigger] args@[k].kind is Splat || args@[k].kind is ForwardingArguments),
{
    let mut i: usize = 0;
    while i < args.len()
        invariant
            i <= args@.len(),
            forall|k: int| 0 <= k < i ==> !(#[trigger] args@[k].kind is Splat || args@[k].kind is ForwardingArguments),
        decreases args@.len() - i,
    {
        match &args[i].kind {
            SyntaxKind::Splat | SyntaxKind::ForwardingArguments => {
                return true;
            },
            _ => {},
        }
        i = i + 1;
    }
    false
}

/// Whether a call gets parentheses around its arguments; see
/// `parens_for_call` for the rules.
pub fn use_parens_for_call_node(
    ps: &ParserState,
    call_node: &CallNode,
    method_name: &[u8],
    is_terminal_call: bool,
    context: FormattingContext,
) -> (r: bool)
    requires
        ps.wf(),
    ensures
        r == parens_for_call(ps, *call_node, method_name@, is_terminal_call, context),
{
    let written_with_parens = call_node.has_opening;
    let has_arguments = match &call_node.arguments {
        Some(args) => !(args.len() == 0 || (args.len() == 1 && is_empty_parentheses_node(&args[0]))),
        None => false,
    };
    let has_block_arg_only = !has_arguments && match &call_node.block {
        Some(b) => matches!(&b.kind, SyntaxKind::BlockArgument),
        None => false,
    };
    if has_block_arg_only {
        return false;
    }
    if is_terminal_call && method_name.len() > 0 && 65u8 <= method_name[0] && method_name[0] <= 90u8 {
        if !has_arguments && call_node.block.is_some() && call_node.receiver.is_none() {
            return false;
        }
        return true;
    }
    let attr: [u8; 5] = [97u8, 116u8, 116u8, 114u8, 95u8];
    assert(attr@ == seq![97u8, 116u8, 116u8, 114u8, 95u8]);
    if bytes_start_with(method_name, attr.as_slice()) && context == FormattingContext::ClassOrModule {
        return written_with_parens;
    }
    if ps.scope_has_variable(method_name) {
        if call_node.receiver.is_none() {
            return written_with_parens;
        } else if is_terminal_call && match &call_node.receiver {
            Some(rcv) => matches!(&rcv.kind, SyntaxKind::SelfNode),
            None => false,
        } {
            return true;
        }
    }
    let raise: [u8; 5] = [114u8, 97u8, 105u8, 115u8, 101u8];
    assert(raise@ == seq![114u8, 97u8, 105u8, 115u8, 101u8]);
    if bytes_are(method_name, raise.as_slice()) {
        if ps.current_formatting_context_requires_parens() {
            return true;
        }
        match &call_node.arguments {
            Some(args) => {
                if any_splat_or_forwarding(args) {
                    return true;
                }
            },
            None => {},
        }
        return false;
    }
    if is_optionally_parenthesized_method(method_name) || is_gemfile_method(method_name) {
        return written_with_parens;
    }
    if !has_arguments {
        return false;
    }
    let do_kw: [u8; 2] = [100u8, 111u8];
    assert(do_kw@ == seq![100u8, 111u8]);
    let brace_block = match &call_node.block {
        Some(b) => match &b.kind {
            SyntaxKind::Block { opening, .. } => !bytes_are(opening.as_slice(), do_kw.as_slice()),
            _ => false,
        },
        None => false,
    };
    if brace_block {
        return true;
    }
    let block_node = match &call_node.block {
        Some(b) => matches!(&b.kind, SyntaxKind::Block { .. }),
        None => false,
    };
    if is_rspec_method(method_name) && call_node.receiver.is_none() && block_node {
        return false;
    }
    let rspec: [u8; 5] = [82u8, 83u8, 112u8, 101u8, 99u8];
    let describe: [u8; 8] = [100u8, 101u8, 115u8, 99u8, 114u8, 105u8, 98u8, 101u8];
    assert(rspec@ == seq![82u8, 83u8, 112u8, 101u8, 99u8]);
    assert(describe@ == seq![100u8, 101u8, 115u8, 99u8, 114u8, 105u8, 98u8, 101u8]);
    match &call_node.receiver {
        Some(rcv) => match &rcv.kind {
            SyntaxKind::ConstantRead { name } => {
                if bytes_are(name.as_slice(), rspec.as_slice()) && bytes_are(
                    method_name,
                    describe.as_slice(),
                ) {
                    return false;
                }
            },
            _ => {},
        },
        None => {},
    }
    if context == FormattingContext::ClassOrModule && !written_with_parens {
        return false;
    }
    true
}

/// A block body that is laid out over several lines: a `do` block, or one
/// with more than one statement.
pub open spec fn renders_multiline(opening: Seq<u8>, body: Option<SyntaxNode>) -> bool {
    ||| opening == seq![100u8, 111u8]
    ||| match body {
        Some(b) => match b.kind {
            SyntaxKind::Statements { body } => body@.len() > 1,
            _ => false,
        },
        None => false,
    }
}

pub fn block_body_renders_multiline(opening: &[u8], body: Option<&SyntaxNode>) -> (r: bool)
    ensures
        r == renders_multiline(
            opening@,
            match body {
                Some(b) => Some(*b),
                None => None,
            },
        ),
{
    let do_kw: [u8; 2] = [100u8, 111u8];
    assert(do_kw@ == seq![100u8, 111u8]);
    if bytes_are(opening, do_kw.as_slice()) {
        return true;
    }
    match body {
        Some(b) => match &b.kind {
            SyntaxKind::Statements { body } => body.len() > 1,
            _ => false,
        },
        None => false,
    }
}

/// The body of a block or a lambda, if it has one.
pub open spec fn body_of(body: Option<Box<SyntaxNode>>) -> Option<SyntaxNode> {
    match body {
        Some(b) => Some(*b),
        None => None,
    }
}

/// A chain element whose block (or, for a lambda, whose body) is laid out
/// over several lines, which makes the whole chain break.
pub open spec fn forces_multiline(element: SyntaxNode) -> bool {
    match element.kind {
        SyntaxKind::Call(c) => match c.block {
            Some(b) => match b.kind {
                SyntaxKind::Block { opening, body } => renders_multiline(opening@, body_of(body)),
                _ => false,
            },
            None => false,
        },
        SyntaxKind::Lambda { opening, body } => renders_multiline(opening@, body_of(body)),
        _ => false,
    }
}

pub fn element_forces_chain_to_multiline(element: &SyntaxNode) -> (r: bool)
    ensures
        r == forces_multiline(*element),
{
    match &element.kind {
        SyntaxKind::Call(c) => match &c.block {
            Some(b) => match &b.kind {
                SyntaxKind::Block { opening, body } => {
                    let inner = match body {
                        Some(x) => Some(&**x),
                        None => None,
                    };
                    block_body_renders_multiline(opening.as_slice(), inner)
                },
                _ => false,
            },
            None => false,
        },
        SyntaxKind::Lambda { opening, body } => {
            let inner = match body {
                Some(x) => Some(&**x),
                None => None,
            };
            block_body_renders_multiline(opening.as_slice(), inner)
        },
        _ => false,
    }
}

/// Where a call in the middle of a chain starts: at its method's name, or,
/// for a call without one (`.()`), at its call operator.
pub open spec fn chain_start(call: CallNode) -> usize {
    match call.message_start {
        Some(m) => m,
        None => match call.call_operator_start {
            Some(o) => o,
            None => 0,
        },
    }
}

/// A call in a chain has a place to start from.
pub open spec fn locatable(call: CallNode) -> bool {
    call.message_start is Some || call.call_operator_start is Some
}

/// Finds an appropriate starting offset for a call inside a call chain: in
/// the middle of a chain the call's own location starts where the chain
/// does, so the method's name (or the call operator of `.()`) stands in.
pub fn start_loc_for_call_node_in_chain(call_chain_element: &CallNode) -> (r: usize)
    requires
        locatable(*call_chain_element),
    ensures
        r == chain_start(*call_chain_element),
{
    match call_chain_element.message_start {
        Some(m) => m,
        None => match call_chain_element.call_operator_start {
            Some(o) => o,
            None => 0,
        },
    }
}

/// A node that is a call.
pub open spec fn is_call(n: SyntaxNode) -> bool {
    n.kind is Call
}

/// A call without a call operator (an index like `x[1]`).
pub open spec fn is_aref(n: SyntaxNode) -> bool {
    match n.kind {
        SyntaxKind::Call(c) => c.call_operator_start is None,
        _ => false,
    }
}

/// A call with a call operator (`.` or `&.`).
pub open spec fn is_dot_call(n: SyntaxNode) -> bool {
    match n.kind {
        SyntaxKind::Call(c) => c.call_operator_start is Some,
        _ => false,
    }
}

/// Where a chain element starts for the purpose of line counting.
pub open spec fn element_start(n: SyntaxNode) -> usize {
    match n.kind {
        SyntaxKind::Call(c) => chain_start(*c),
        _ => n.start_offset,
    }
}

/// The call operator's offset, for a call that has one.
pub open spec fn operator_start(n: SyntaxNode) -> Option<usize> {
    match n.kind {
        SyntaxKind::Call(c) => c.call_operator_start,
        _ => None,
    }
}

/// A chain as it is split off a call: every element after the first is a
/// call, and every call in it has a place to start from.
pub open spec fn chain_ok(s: Seq<&SyntaxNode>) -> bool {
    &&& s.len() >= 1
    &&& forall|k: int| 1 <= k < s.len() ==> is_call(*#[trigger] s[k])
    &&& forall|k: int| 0 <= k < s.len() ==> (#[trigger] s[k].kind matches SyntaxKind::Call(c) ==> locatable(*c))
}

/// A leading element that is a literal expression (a hash, an array, ...),
/// not a call, a variable, a constant or a parenthesised expression.
pub open spec fn literal_expression(n: SyntaxNode) -> bool {
    !(n.kind is Call || n.kind is ConstantRead || n.kind is ConstantPath || n.kind is LocalVariableRead
        || n.kind is GlobalVariableRead || n.kind is InstanceVariableRead || n.kind is ClassVariableRead
        || n.kind is ItLocalVariableRead || n.kind is NumberedReferenceRead || n.kind is Parentheses)
}

pub fn is_literal_expression(n: &SyntaxNode) -> (r: bool)
    ensures
        r == literal_expression(*n),
{
    match &n.kind {
        SyntaxKind::Call(_) | SyntaxKind::ConstantRead { .. } | SyntaxKind::ConstantPath
        | SyntaxKind::LocalVariableRead | SyntaxKind::GlobalVariableRead
        | SyntaxKind::InstanceVariableRead | SyntaxKind::ClassVariableRead
        | SyntaxKind::ItLocalVariableRead | SyntaxKind::NumberedReferenceRead
        | SyntaxKind::Parentheses { .. } => false,
        _ => true,
    }
}

/// The line of the byte at `offset`, as `ps` counts lines.
pub open spec fn line_at(ps: &ParserState, offset: usize) -> int {
    (crate::file_comments::newlines_before(ps.comments_hash.newline_offsets@, offset) + 1) as int
}

/// A comment of `ps` stands on a line in `[from, to)`.
pub open spec fn comment_in_lines(ps: &ParserState, from: int, to: int) -> bool {
    exists|i: int|
        0 <= i < ps.comments_hash.other_comments@.len() && from <= #[trigger] ps.comments_hash.other_comments@[i].0 < to
}

/// The chain without a literal leading expression, which is not counted when
/// the chain's lines are compared, unless a comment stands between it and
/// the first call or it is laid out over several lines itself.
pub open spec fn without_literal_head<'a>(ps: &ParserState, s: Seq<&'a SyntaxNode>) -> Seq<&'a SyntaxNode> {
    if s.len() > 1 && literal_expression(*s[0]) && !comment_in_lines(
        ps,
        line_at(ps, s[0].end_offset) + 1,
        line_at(ps, element_start(*s[1])) + 1,
    ) && !forces_multiline(*s[0]) {
        s.skip(1)
    } else {
        s
    }
}

/// The chain without its leading index calls.
pub open spec fn without_leading_arefs(s: Seq<&SyntaxNode>) -> Seq<&SyntaxNode>
    decreases s.len(),
{
    if s.len() > 1 && is_aref(*s[0]) {
        without_leading_arefs(s.skip(1))
    } else {
        s
    }
}

/// The chain without a leading non-call and the index calls right after it.
pub open spec fn without_aref_head(s: Seq<&SyntaxNode>) -> Seq<&SyntaxNode> {
    if s.len() > 1 && !is_call(*s[0]) && is_aref(*s[1]) {
        without_leading_arefs(s.skip(1))
    } else {
        s
    }
}

/// Whether a call chain is laid out over several lines: once a literal
/// leading expression and leading index calls are set aside, some call's
/// operator stands on another line than the chain's start, or an element
/// before some call is itself laid out over several lines.
pub open spec fn chain_multilines(ps: &ParserState, s: Seq<&SyntaxNode>) -> bool {
    let t = without_aref_head(without_literal_head(ps, s));
    let start_line = line_at(ps, element_start(*t[0]));
    exists|i: int|
        1 <= i < t.len() && ((#[trigger] operator_start(*t[i]) matches Some(o) && line_at(ps, o) != start_line)
            || forces_multiline(*t[i - 1]))
}

proof fn lemma_chain_ok_skip(s: Seq<&SyntaxNode>, j: int)
    requires
        chain_ok(s),
        0 <= j < s.len(),
    ensures
        chain_ok(s.skip(j)),
{
    let t = s.skip(j);
    assert forall|k: int| 1 <= k < t.len() implies is_call(*#[trigger] t[k]) by {
        assert(t[k] == s[k + j]);
    }
    assert forall|k: int| 0 <= k < t.len() implies (#[trigger] t[k].kind matches SyntaxKind::Call(c)
        ==> locatable(*c)) by {
        assert(t[k] == s[k + j]);
    }
}

/// Where a chain element starts, for line counting.
fn element_start_offset(n: &SyntaxNode) -> (r: usize)
    requires
        n.kind matches SyntaxKind::Call(c) ==> locatable(*c),
    ensures
        r == element_start(*n),
{
    match &n.kind {
        SyntaxKind::Call(c) => start_loc_for_call_node_in_chain(c),
        _ => n.start_offset,
    }
}

fn operator_start_of(n: &SyntaxNode) -> (r: Option<usize>)
    ensures
        r == operator_start(*n),
{
    match &n.kind {
        SyntaxKind::Call(c) => c.call_operator_start,
        _ => None,
    }
}

fn is_aref_node(n: &SyntaxNode) -> (r: bool)
    ensures
        r == is_aref(*n),
{
    match &n.kind {
        SyntaxKind::Call(c) => c.call_operator_start.is_none(),
        _ => false,
    }
}

/// Whether a call chain should be laid out over several lines; see
/// `chain_multilines` for the rule.
pub fn call_chain_should_be_multilined(ps: &ParserState, call_chain_elements: &[&SyntaxNode]) -> (r: bool)
    requires
        ps.wf(),
        chain_ok(call_chain_elements@),
    ensures
        r == chain_multilines(ps, call_chain_elements@),
{
    let s = call_chain_elements;
    let n = s.len();
    let mut lo: usize = 0;
    if n > 1 {
        if is_literal_expression(s[0]) {
            assert(is_call(*s@[1]));
            let first_call_start_line = ps.get_line_number_for_offset(element_start_offset(s[1]));
            let leading_expr_end_line = ps.get_line_number_for_offset(s[0].end_offset);
            let has_comment = ps.has_comments_in_line(leading_expr_end_line + 1, first_call_start_line + 1);
            if !has_comment && !element_forces_chain_to_multiline(s[0]) {
                lo = 1;
            }
        }
    }
    assert(s@.skip(0) =~= s@);
    assert(s@.skip(lo as int) == without_literal_head(ps, s@));
    proof {
        lemma_chain_ok_skip(s@, lo as int);
    }
    let first_is_not_call = !matches!(&s[lo].kind, SyntaxKind::Call(_));
    let second_is_aref = lo + 1 < n && is_aref_node(s[lo + 1]);
    let ghost u = s@.skip(lo as int);
    if first_is_not_call && second_is_aref {
        assert(u[1] == s@[lo + 1]);
        lo = lo + 1;
        assert(s@.skip(lo as int) =~= u.skip(1));
        while n - lo > 1 && is_aref_node(s[lo])
            invariant
                1 <= lo < n,
                n == s@.len(),
                without_leading_arefs(s@.skip(lo as int)) == without_aref_head(u),
            decreases n - lo,
        {
            assert(s@.skip(lo as int)[0] == s@[lo as int]);
            assert(s@.skip(lo as int).skip(1) =~= s@.skip(lo + 1));
            lo = lo + 1;
        }
        assert(s@.skip(lo as int)[0] == s@[lo as int]);
    } else {
        assert(u[0] == s@[lo as int]);
        if lo + 1 < n {
            assert(u[1] == s@[lo + 1]);
        }
    }
    let ghost t = s@.skip(lo as int);
    assert(t == without_aref_head(without_literal_head(ps, s@)));
    proof {
        lemma_chain_ok_skip(s@, lo as int);
    }
    assert(t[0] == s@[lo as int]);
    let start_line = ps.get_line_number_for_offset(element_start_offset(s[lo]));
    let mut i: usize = lo + 1;
    while i < n
        invariant
            lo < i <= n,
            n == s@.len(),
            t == s@.skip(lo as int),
            s@ == call_chain_elements@,
            t == without_aref_head(without_literal_head(ps, s@)),
            start_line == line_at(ps, element_start(*t[0])),
            chain_ok(s@),
            ps.wf(),
            forall|j: int|
                1 <= j < i - lo ==> !((#[trigger] operator_start(*t[j]) matches Some(o) && line_at(ps, o)
                    != start_line) || forces_multiline(*t[j - 1])),
        decreases n - i,
    {
        assert(t[i - lo] == s@[i as int]);
        assert(t[i - lo - 1] == s@[i - 1]);
        let op = operator_start_of(s[i]);
        let j: Ghost<int> = Ghost(i - lo);
        assert(operator_start(*t[j@]) == op);
        if let Some(o) = op {
            if ps.get_line_number_for_offset(o) != start_line {
                assert(1 <= j@ < t.len() && ((operator_start(*t[j@]) matches Some(o) && line_at(ps, o)
                    != start_line) || forces_multiline(*t[j@ - 1])));
                return true;
            }
        }
        if element_forces_chain_to_multiline(s[i - 1]) {
            assert(1 <= j@ < t.len() && ((operator_start(*t[j@]) matches Some(o) && line_at(ps, o)
                != start_line) || forces_multiline(*t[j@ - 1])));
            return true;
        }
        i = i + 1;
    }
    false
}

/// How many index calls end the chain.
pub open spec fn trailing_aref_count(s: Seq<&SyntaxNode>) -> nat
    decreases s.len(),
{
    if s.len() > 0 && is_aref(*s.last()) {
        trailing_aref_count(s.drop_last()) + 1
    } else {
        0
    }
}

/// Some element of the chain is a call with a call operator.
pub open spec fn has_dot_call(s: Seq<&SyntaxNode>) -> bool {
    exists|k: int| 0 <= k < s.len() && is_dot_call(*#[trigger] s[k])
}

/// How many elements at the end of a chain are trailing index calls, which
/// are formatted after the rest: those after the last dot call, where the
/// chain has one.
pub open spec fn trailing_arefs_len(s: Seq<&SyntaxNode>) -> nat {
    if has_dot_call(s) {
        trailing_aref_count(s)
    } else {
        0
    }
}

proof fn lemma_trailing_aref_count_bound(s: Seq<&SyntaxNode>)
    ensures
        trailing_aref_count(s) <= s.len(),
        forall|k: int| s.len() - trailing_aref_count(s) <= k < s.len() ==> is_aref(*#[trigger] s[k]),
        trailing_aref_count(s) < s.len() ==> !is_aref(*s[s.len() - trailing_aref_count(s) - 1]),
    decreases s.len(),
{
    if s.len() > 0 && is_aref(*s.last()) {
        lemma_trailing_aref_count_bound(s.drop_last());
        assert forall|k: int| s.len() - trailing_aref_count(s) <= k < s.len() implies is_aref(*#[trigger] s[k]) by {
            if k < s.len() - 1 {
                assert(s[k] == s.drop_last()[k]);
            }
        }
        if trailing_aref_count(s) < s.len() {
            assert(s[s.len() - trailing_aref_count(s) - 1] == s.drop_last()[s.len() - trailing_aref_count(s) - 1]);
        }
    }
}

/// Splits the index calls off the end of a chain that has dot calls: the
/// chain without them, and them in their order.
pub fn extract_trailing_arefs<'a>(elements: Vec<&'a SyntaxNode>) -> (r: (Vec<&'a SyntaxNode>, Vec<&'a SyntaxNode>))
    ensures
        r.0@ == elements@.take(elements@.len() - trailing_arefs_len(elements@)),
        r.1@ == elements@.skip(elements@.len() - trailing_arefs_len(elements@)),
{
    let mut elements = elements;
    let ghost orig = elements@;
    let mut has_dot_calls = false;
    let mut i: usize = 0;
    while i < elements.len()
        invariant
            elements@ == orig,
            i <= orig.len(),
            has_dot_calls == exists|k: int| 0 <= k < i && is_dot_call(*#[trigger] orig[k]),
        decreases orig.len() - i,
    {
        let d = match &elements[i].kind {
            SyntaxKind::Call(c) => c.call_operator_start.is_some(),
            _ => false,
        };
        if d {
            has_dot_calls = true;
        }
        i = i + 1;
    }
    let mut keep: usize = elements.len();
    proof {
        lemma_trailing_aref_count_bound(orig);
    }
    if has_dot_calls {
        while keep > 0 && is_aref_node(elements[keep - 1])
            invariant
                elements@ == orig,
                keep <= orig.len(),
                orig.len() - trailing_aref_count(orig) <= keep,
                forall|k: int| keep <= k < orig.len() ==> is_aref(*#[trigger] orig[k]),
            decreases keep,
        {
            proof {
                lemma_trailing_aref_count_bound(orig);
            }
            keep = keep - 1;
        }
        assert(keep == orig.len() - trailing_aref_count(orig)) by {
            if keep > orig.len() - trailing_aref_count(orig) {
                assert(is_aref(*orig[keep - 1]));
            }
        }
    }
    let trailing = elements.split_off(keep);
    (elements, trailing)
}

/// A unary operator call (`-x`, `+x`, `!x`, `~x`): no arguments, no call
/// operator, and one of the names `-@`, `+@`, `!`, `~`.
pub open spec fn unary_operator_call(c: CallNode) -> bool {
    &&& c.arguments is None
    &&& c.call_operator_start is None
    &&& (c.name@ == seq![45u8, 64u8] || c.name@ == seq![43u8, 64u8] || c.name@ == seq![33u8] || c.name@
        == seq![126u8])
}

/// A node and the receivers under it, innermost first; a unary operator is
/// no part of a chain.
pub open spec fn receiver_chain(n: SyntaxNode) -> Seq<SyntaxNode>
    decreases n,
{
    match n.kind {
        SyntaxKind::Call(c) => match c.receiver {
            Some(r) => if unary_operator_call(*c) {
                seq![n]
            } else {
                receiver_chain(r).push(n)
            },
            None => seq![n],
        },
        _ => seq![n],
    }
}

/// The nodes behind the references.
pub open spec fn derefs<'a>(s: Seq<&'a SyntaxNode>) -> Seq<SyntaxNode> {
    s.map_values(|x: &'a SyntaxNode| *x)
}

/// A dot call stands somewhere after index `i`.
pub open spec fn dot_after(s: Seq<SyntaxNode>, i: int) -> bool {
    exists|k: int| i < k < s.len() && is_dot_call(#[trigger] s[k])
}

/// The first index from `i` on that is no index call.
pub open spec fn next_non_aref(s: Seq<SyntaxNode>, i: int) -> int
    decreases s.len() - i,
{
    if 0 <= i < s.len() && is_aref(s[i]) {
        next_non_aref(s, i + 1)
    } else {
        i
    }
}

/// Where a chain is cut into segments, scanning from `i` on, `seen` telling
/// whether a dot call came since the last cut: at an index call after a dot
/// call, with another dot call further on, the chain is cut after the run of
/// index calls.
pub open spec fn split_points(s: Seq<SyntaxNode>, i: int, seen: bool) -> Seq<int>
    decreases s.len() - i,
{
    if i < 0 || i >= s.len() {
        Seq::empty()
    } else if is_call(s[i]) {
        let dot = is_dot_call(s[i]);
        if !dot && seen && dot_after(s, i) {
            seq![next_non_aref(s, i)] + split_points(s, i + 1, false)
        } else {
            split_points(s, i + 1, seen || dot)
        }
    } else {
        split_points(s, i + 1, seen)
    }
}

/// The segments of `s` cut at the increasing indices `cuts`.
pub open spec fn pieces(s: Seq<SyntaxNode>, cuts: Seq<int>) -> Seq<Seq<SyntaxNode>> {
    Seq::new(
        cuts.len() + 1,
        |k: int|
            s.subrange(
                if k == 0 {
                    0
                } else {
                    cuts[k - 1]
                },
                if k == cuts.len() {
                    s.len() as int
                } else {
                    cuts[k]
                },
            ),
    )
}

/// The call chains of a node: its receiver chain, cut where index calls
/// after a dot call are followed by more dot calls.
pub open spec fn call_chains(n: SyntaxNode) -> Seq<Seq<SyntaxNode>> {
    let s = receiver_chain(n);
    pieces(s, split_points(s, 0, false))
}

proof fn lemma_next_non_aref(s: Seq<SyntaxNode>, i: int)
    requires
        0 <= i <= s.len(),
    ensures
        i <= next_non_aref(s, i) <= s.len(),
        forall|x: int| i <= x < next_non_aref(s, i) ==> is_aref(#[trigger] s[x]),
        next_non_aref(s, i) < s.len() ==> !is_aref(s[next_non_aref(s, i)]),
    decreases s.len() - i,
{
    if i < s.len() && is_aref(s[i]) {
        lemma_next_non_aref(s, i + 1);
    }
}

proof fn lemma_split_after_dot(s: Seq<SyntaxNode>, i: int, seen: bool)
    requires
        0 <= i,
    ensures
        forall|k: int|
            0 <= k < split_points(s, i, seen).len() ==> seen || exists|m: int|
                i <= m < #[trigger] split_points(s, i, seen)[k] && is_dot_call(s[m]),
    decreases s.len() - i,
{
    if i < s.len() {
        let p = split_points(s, i, seen);
        if is_call(s[i]) {
            let dot = is_dot_call(s[i]);
            if !dot && seen && dot_after(s, i) {
                lemma_split_after_dot(s, i + 1, false);
            } else {
                assert(p == split_points(s, i + 1, seen || dot));
                lemma_split_after_dot(s, i + 1, seen || dot);
                lemma_split_points_bounds(s, i + 1, seen || dot);
                assert forall|k: int| 0 <= k < p.len() implies seen || exists|m: int|
                    i <= m < #[trigger] p[k] && is_dot_call(s[m]) by {
                    if dot && !seen {
                        assert(i < p[k]);
                    }
                }
            }
        } else {
            assert(p == split_points(s, i + 1, seen));
            lemma_split_after_dot(s, i + 1, seen);
        }
    }
}

proof fn lemma_split_points_bounds(s: Seq<SyntaxNode>, i: int, seen: bool)
    requires
        0 <= i,
    ensures
        forall|k: int| 0 <= k < split_points(s, i, seen).len() ==> i <= #[trigger] split_points(s, i, seen)[k]
            < s.len(),
        forall|a: int, b: int|
            0 <= a < b < split_points(s, i, seen).len() ==> #[trigger] split_points(s, i, seen)[a]
                < #[trigger] split_points(s, i, seen)[b],
    decreases s.len() - i,
{
    if i < s.len() {
        let p = split_points(s, i, seen);
        if is_call(s[i]) {
            let dot = is_dot_call(s[i]);
            if !dot && seen && dot_after(s, i) {
                let q = next_non_aref(s, i);
                let rest = split_points(s, i + 1, false);
                lemma_split_points_bounds(s, i + 1, false);
                lemma_split_after_dot(s, i + 1, false);
                lemma_next_non_aref(s, i);
                let k0 = choose|k: int| i < k < s.len() && is_dot_call(#[trigger] s[k]);
                assert(q <= k0) by {
                    if q > k0 {
                        assert(is_aref(s[k0]));
                    }
                }
                assert forall|k: int| 0 <= k < rest.len() implies q < #[trigger] rest[k] by {
                    let m = choose|m: int| i + 1 <= m < rest[k] && is_dot_call(s[m]);
                    if m < q {
                        assert(is_aref(s[m]));
                    }
                }
                assert(p == seq![q] + rest);
                assert forall|k: int| 0 <= k < p.len() implies i <= #[trigger] p[k] < s.len() by {
                    if k > 0 {
                        assert(p[k] == rest[k - 1]);
                    }
                }
                assert forall|a: int, b: int| 0 <= a < b < p.len() implies #[trigger] p[a] < #[trigger] p[b] by {
                    assert(p[b] == rest[b - 1]);
                    if a > 0 {
                        assert(p[a] == rest[a - 1]);
                    }
                }
            } else {
                assert(p == split_points(s, i + 1, seen || dot));
                lemma_split_points_bounds(s, i + 1, seen || dot);
            }
        } else {
            assert(p == split_points(s, i + 1, seen));
            lemma_split_points_bounds(s, i + 1, seen);
        }
    }
}

/// Whether a call is a unary operator.
fn is_unary_operator_call(c: &CallNode) -> (r: bool)
    ensures
        r == unary_operator_call(*c),
{
    let minus: [u8; 2] = [45u8, 64u8];
    let plus: [u8; 2] = [43u8, 64u8];
    let bang: [u8; 1] = [33u8];
    let tilde: [u8; 1] = [126u8];
    assert(minus@ == seq![45u8, 64u8]);
    assert(plus@ == seq![43u8, 64u8]);
    assert(bang@ == seq![33u8]);
    assert(tilde@ == seq![126u8]);
    c.arguments.is_none() && c.call_operator_start.is_none() && (bytes_are(c.name.as_slice(), minus.as_slice())
        || bytes_are(c.name.as_slice(), plus.as_slice()) || bytes_are(c.name.as_slice(), bang.as_slice())
        || bytes_are(c.name.as_slice(), tilde.as_slice()))
}

/// The receiver that continues the chain below a node, if any.
fn chain_receiver(n: &SyntaxNode) -> (r: Option<&SyntaxNode>)
    ensures
        match r {
            Some(x) => receiver_chain(*n) == receiver_chain(*x).push(*n),
            None => receiver_chain(*n) == seq![*n],
        },
{
    match &n.kind {
        SyntaxKind::Call(c) => match &c.receiver {
            Some(rcv) => if is_unary_operator_call(c) {
                None
            } else {
                Some(rcv)
            },
            None => None,
        },
        _ => None,
    }
}

fn is_dot_call_node(n: &SyntaxNode) -> (r: bool)
    ensures
        r == is_dot_call(*n),
{
    match &n.kind {
        SyntaxKind::Call(c) => c.call_operator_start.is_some(),
        _ => false,
    }
}

/// Splits the call chain below `node` into segments: the node and its
/// receivers, innermost first, cut where index calls after a dot call are
/// followed by more dot calls.
pub fn split_node_into_call_chains<'a>(node: &'a SyntaxNode) -> (r: Vec<Vec<&'a SyntaxNode>>)
    ensures
        r@.map_values(|v: Vec<&'a SyntaxNode>| derefs(v@)) == call_chains(*node),
{
    let mut elements: Vec<&'a SyntaxNode> = Vec::new();
    let mut maybe_receiver: Option<&'a SyntaxNode> = Some(node);
    while maybe_receiver.is_some()
        invariant
            match maybe_receiver {
                Some(c) => receiver_chain(*node) == receiver_chain(*c) + derefs(elements@),
                None => receiver_chain(*node) == derefs(elements@),
            },
        decreases match maybe_receiver {
            Some(c) => receiver_chain(*c).len(),
            None => 0,
        },
    {
        let receiver = maybe_receiver.unwrap();
        let next = chain_receiver(receiver);
        let ghost before = elements@;
        elements.insert(0, receiver);
        assert(derefs(elements@) =~= seq![*receiver] + derefs(before));
        match next {
            Some(x) => {
                assert(receiver_chain(*x).push(*receiver) + derefs(before) =~= receiver_chain(*x) + derefs(
                    elements@,
                ));
            },
            None => {
                assert(seq![*receiver] + derefs(before) =~= derefs(elements@));
            },
        }
        maybe_receiver = next;
    }
    let ghost s = derefs(elements@);
    let n = elements.len();
    // Which elements have a dot call anywhere after them.
    let mut has_dot_after: Vec<bool> = Vec::new();
    let mut k: usize = 0;
    while k < n
        invariant
            k <= n,
            has_dot_after@.len() == k,
            n == elements@.len(),
        decreases n - k,
    {
        has_dot_after.push(false);
        k = k + 1;
    }
    let mut seen_dot = false;
    let mut i: usize = n;
    while i > 0
        invariant
            i <= n,
            n == elements@.len(),
            s == derefs(elements@),
            has_dot_after@.len() == n,
            seen_dot == exists|k: int| i <= k < n && is_dot_call(#[trigger] s[k]),
            forall|j: int| i <= j < n ==> has_dot_after@[j] == dot_after(s, j),
        decreases i,
    {
        i = i - 1;
        has_dot_after.set(i, seen_dot);
        assert(has_dot_after@[i as int] == dot_after(s, i as int)) by {
            if seen_dot {
                let k = choose|k: int| i + 1 <= k < n && is_dot_call(#[trigger] s[k]);
                assert(i < k < s.len() && is_dot_call(s[k]));
            }
        }
        assert(s[i as int] == *elements@[i as int]);
        if is_dot_call_node(elements[i]) {
            seen_dot = true;
        }
    }
    proof {
        lemma_split_points_bounds(s, 0, false);
    }
    let mut split_before: Vec<usize> = Vec::new();
    let mut seen_dot_call = false;
    let mut i: usize = 0;
    while i < n
        invariant
            i <= n,
            n == elements@.len(),
            s == derefs(elements@),
            has_dot_after@.len() == n,
            forall|j: int| 0 <= j < n ==> has_dot_after@[j] == dot_after(s, j),
            split_before@.map_values(|x: usize| x as int) + split_points(s, i as int, seen_dot_call)
                == split_points(s, 0, false),
        decreases n - i,
    {
        let node_i = elements[i];
        assert(s[i as int] == *node_i);
        let ghost before = split_before@;
        match &node_i.kind {
            SyntaxKind::Call(c) => {
                let node_is_dot_call = c.call_operator_start.is_some();
                let is_aref = !node_is_dot_call;
                if is_aref && seen_dot_call && has_dot_after[i] {
                    let mut split_idx = i;
                    proof {
                        lemma_next_non_aref(s, i as int);
                    }
                    while split_idx < n && is_aref_node(elements[split_idx])
                        invariant
                            i <= split_idx <= n,
                            n == elements@.len(),
                            s == derefs(elements@),
                            next_non_aref(s, split_idx as int) == next_non_aref(s, i as int),
                        decreases n - split_idx,
                    {
                        assert(s[split_idx as int] == *elements@[split_idx as int]);
                        split_idx = split_idx + 1;
                    }
                    if split_idx < n {
                        assert(s[split_idx as int] == *elements@[split_idx as int]);
                    }
                    split_before.push(split_idx);
                    assert(split_before@.map_values(|x: usize| x as int) =~= before.map_values(|x: usize| x as int)
                        + seq![next_non_aref(s, i as int)]);
                    seen_dot_call = false;
                    i = i + 1;
                    continue;
                }
                if node_is_dot_call {
                    seen_dot_call = true;
                }
            },
            _ => {},
        }
        i = i + 1;
    }
    assert(split_before@.map_values(|x: usize| x as int) =~= split_points(s, 0, false));
    let ghost cuts = split_points(s, 0, false);
    // Cut the elements at the split indices, in order.
    let mut segments: Vec<Vec<&'a SyntaxNode>> = Vec::new();
    let mut current: Vec<&'a SyntaxNode> = Vec::new();
    let mut ci: usize = 0;
    let mut j: usize = 0;
    while j < n
        invariant
            j <= n,
            n == elements@.len(),
            s == derefs(elements@),
            cuts == split_points(s, 0, false),
            cuts == split_before@.map_values(|x: usize| x as int),
            forall|k: int| 0 <= k < cuts.len() ==> 0 <= #[trigger] cuts[k] < s.len(),
            forall|a: int, b: int| 0 <= a < b < cuts.len() ==> #[trigger] cuts[a] < #[trigger] cuts[b],
            ci <= cuts.len(),
            ci < cuts.len() ==> j <= cuts[ci as int],
            ci > 0 ==> cuts[ci - 1] <= j,
            segments@.len() == ci,
            forall|k: int| 0 <= k < ci ==> derefs((#[trigger] segments@[k])@) == pieces(s, cuts)[k],
            derefs(current@) == s.subrange(
                if ci == 0 {
                    0
                } else {
                    cuts[ci - 1]
                },
                j as int,
            ),
        decreases n - j,
    {
        if ci < split_before.len() && split_before[ci] == j {
            let ghost seg = current@;
            segments.push(current);
            current = Vec::new();
            assert(derefs(segments@[ci as int]@) == pieces(s, cuts)[ci as int]);
            ci = ci + 1;
            assert(derefs(current@) =~= s.subrange(cuts[ci - 1], j as int));
        }
        let ghost cur = current@;
        current.push(elements[j]);
        assert(derefs(current@) =~= derefs(cur).push(s[j as int]));
        assert(s.subrange(
            if ci == 0 {
                0
            } else {
                cuts[ci - 1]
            },
            j + 1,
        ) =~= s.subrange(
            if ci == 0 {
                0
            } else {
                cuts[ci - 1]
            },
            j as int,
        ).push(s[j as int]));
        j = j + 1;
    }
    assert(ci == cuts.len()) by {
        if ci < cuts.len() {
            assert(cuts[ci as int] < s.len());
        }
    }
    let ghost done = segments@;
    segments.push(current);
    assert(segments@.map_values(|v: Vec<&'a SyntaxNode>| derefs(v@)) =~= pieces(s, cuts)) by {
        assert forall|k: int| 0 <= k < segments@.len() implies segments@.map_values(
            |v: Vec<&'a SyntaxNode>| derefs(v@),
        )[k] == pieces(s, cuts)[k] by {
            if k < ci {
                assert(segments@[k] == done[k]);
            }
        }
    }
    segments
}

proof fn lemma_pieces_join(s: Seq<SyntaxNode>, cuts: Seq<int>)
    requires
        forall|k: int| 0 <= k < cuts.len() ==> 0 <= #[trigger] cuts[k] <= s.len(),
        forall|a: int, b: int| 0 <= a < b < cuts.len() ==> #[trigger] cuts[a] < #[trigger] cuts[b],
    ensures
        pieces(s, cuts).flatten_alt() == s,
    decreases cuts.len(),
{
    let p = pieces(s, cuts);
    if cuts.len() == 0 {
        assert(p.drop_last() =~= Seq::<Seq<SyntaxNode>>::empty());
        assert(p.last() =~= s);
        assert(p.drop_last().flatten_alt() + p.last() =~= s);
    } else {
        let c = cuts.last();
        let t = s.take(c);
        let d = cuts.drop_last();
        assert forall|k: int| 0 <= k < d.len() implies 0 <= #[trigger] d[k] <= t.len() by {
            assert(d[k] == cuts[k]);
            assert(cuts[k] < cuts[cuts.len() - 1]);
        }
        assert forall|a: int, b: int| 0 <= a < b < d.len() implies #[trigger] d[a] < #[trigger] d[b] by {
            assert(d[a] == cuts[a] && d[b] == cuts[b]);
        }
        lemma_pieces_join(t, d);
        assert(p.drop_last() =~= pieces(t, d)) by {
            assert forall|k: int| 0 <= k < p.len() - 1 implies p.drop_last()[k] == pieces(t, d)[k] by {
                if k > 0 {
                    assert(cuts[k - 1] < c);
                }
                if k < d.len() {
                    assert(cuts[k] < c);
                }
                assert(p.drop_last()[k] =~= pieces(t, d)[k]);
            }
        }
        assert(p.last() =~= s.subrange(c, s.len() as int));
        assert(t + s.subrange(c, s.len() as int) =~= s);
    }
}

/// Cutting a call chain into segments loses and reorders nothing, and
/// leaves no segment empty: joined, the segments are the node and its
/// receivers, innermost first.
pub proof fn law_call_chain_segments_join(n: SyntaxNode)
    ensures
        call_chains(n).flatten() == receiver_chain(n),
        forall|k: int| 0 <= k < call_chains(n).len() ==> (#[trigger] call_chains(n)[k]).len() > 0,
{
    let s = receiver_chain(n);
    let cuts = split_points(s, 0, false);
    lemma_split_points_bounds(s, 0, false);
    lemma_split_after_dot(s, 0, false);
    assert forall|k: int| 0 <= k < cuts.len() implies 0 <= #[trigger] cuts[k] <= s.len() by {}
    lemma_pieces_join(s, cuts);
    pieces(s, cuts).lemma_flatten_and_flatten_alt_are_equivalent();
    assert forall|k: int| 0 <= k < call_chains(n).len() implies (#[trigger] call_chains(n)[k]).len() > 0 by {
        if k == 0 && cuts.len() > 0 {
            let m = choose|m: int| 0 <= m < cuts[0] && is_dot_call(s[m]);
        }
        if k > 0 && k < cuts.len() {
            assert(cuts[k - 1] < cuts[k]);
        }
    }
}

/// A space or a tab.
pub open spec fn is_blank(b: u8) -> bool {
    b == 32u8 || b == 9u8
}

/// How many spaces and tabs `s` begins with.
pub open spec fn leading_blanks(s: Seq<u8>) -> nat
    decreases s.len(),
{
    if s.len() > 0 && is_blank(s[0]) {
        leading_blanks(s.skip(1)) + 1
    } else {
        0
    }
}

/// How many escapes of whitespace (`\t`, `\s`) `s` begins with, one after
/// the other.
pub open spec fn leading_blank_escapes(s: Seq<u8>) -> nat
    decreases s.len(),
{
    if s.len() >= 2 && s[0] == 92u8 && (s[1] == 116u8 || s[1] == 115u8) {
        leading_blank_escapes(s.skip(2)) + 1
    } else {
        0
    }
}

/// The common indent that the parser took off a string part of a squiggly
/// heredoc: how much more leading whitespace its raw text has than its
/// unescaped text, not counting escaped whitespace as indentation; nothing
/// where the raw text has no more.
pub open spec fn part_common_indent(raw: Seq<u8>, unescaped: Seq<u8>) -> Option<nat> {
    let raw_leading = leading_blanks(raw);
    let unescaped_leading = leading_blanks(unescaped) - leading_blank_escapes(raw.skip(raw_leading as int));
    if raw_leading > unescaped_leading {
        Some((raw_leading - unescaped_leading) as nat)
    } else {
        None
    }
}

proof fn lemma_leading_blanks(s: Seq<u8>, i: int)
    requires
        0 <= i <= s.len(),
        forall|k: int| 0 <= k < i ==> is_blank(#[trigger] s[k]),
    ensures
        leading_blanks(s) == i + leading_blanks(s.skip(i)),
    decreases i,
{
    if i > 0 {
        assert forall|k: int| 0 <= k < i - 1 implies is_blank(#[trigger] s.skip(1)[k]) by {
            assert(s.skip(1)[k] == s[k + 1]);
        }
        lemma_leading_blanks(s.skip(1), i - 1);
        assert(s.skip(1).skip(i - 1) =~= s.skip(i));
    } else {
        assert(s.skip(0) =~= s);
    }
}

/// How many spaces and tabs `s` begins with.
fn count_leading_blanks(s: &[u8]) -> (r: usize)
    ensures
        r == leading_blanks(s@),
        r <= s@.len(),
{
    let mut i: usize = 0;
    while i < s.len() && (s[i] == 32u8 || s[i] == 9u8)
        invariant
            i <= s@.len(),
            forall|k: int| 0 <= k < i ==> is_blank(#[trigger] s@[k]),
        decreases s@.len() - i,
    {
        i = i + 1;
    }
    proof {
        lemma_leading_blanks(s@, i as int);
    }
    i
}

/// The common indent of one string part of a squiggly heredoc; see
/// `part_common_indent`.
pub fn string_part_common_indent(raw: &[u8], unescaped: &[u8]) -> (r: Option<usize>)
    requires
        leading_blanks(unescaped@) >= leading_blank_escapes(raw@.skip(leading_blanks(raw@) as int)),
    ensures
        match r {
            Some(n) => part_common_indent(raw@, unescaped@) == Some(n as nat),
            None => part_common_indent(raw@, unescaped@) is None,
        },
{
    let raw_leading = count_leading_blanks(raw);
    let after_ws = vstd::slice::slice_subrange(raw, raw_leading, raw.len());
    assert(after_ws@ =~= raw@.skip(raw_leading as int));
    let mut count: usize = 0;
    let mut i: usize = 0;
    assert(after_ws@.skip(0) =~= after_ws@);
    while i + 1 < after_ws.len() && after_ws[i] == 92u8 && (after_ws[i + 1] == 116u8 || after_ws[i + 1]
        == 115u8)
        invariant
            i <= after_ws@.len(),
            count * 2 == i,
            leading_blank_escapes(after_ws@) == count + leading_blank_escapes(after_ws@.skip(i as int)),
        decreases after_ws@.len() - i,
    {
        let ghost rest = after_ws@.skip(i as int);
        assert(rest.skip(2) =~= after_ws@.skip(i + 2));
        count = count + 1;
        i = i + 2;
    }
    proof {
        let rest = after_ws@.skip(i as int);
        assert(after_ws@.skip(0) =~= after_ws@);
    }
    let unescaped_leading = count_leading_blanks(unescaped) - count;
    if raw_leading > unescaped_leading {
        Some(raw_leading - unescaped_leading)
    } else {
        None
    }
}

/// The first common indent among the string parts, scanning from `i` on.
pub open spec fn first_common_indent(parts: Seq<SyntaxNode>, i: int) -> nat
    decreases parts.len() - i,
{
    if i < 0 || i >= parts.len() {
        0
    } else {
        match parts[i].kind {
            SyntaxKind::StringNode { raw, unescaped } => match part_common_indent(raw@, unescaped@) {
                Some(n) => n,
                None => first_common_indent(parts, i + 1),
            },
            _ => first_common_indent(parts, i + 1),
        }
    }
}

/// Each string part's unescaped text has at least as much leading whitespace
/// as its raw text has escaped whitespace after its indent, as the parser
/// makes it.
pub open spec fn parts_ok(parts: Seq<SyntaxNode>) -> bool {
    forall|k: int|
        0 <= k < parts.len() ==> (#[trigger] parts[k].kind matches SyntaxKind::StringNode { raw, unescaped }
            ==> leading_blanks(unescaped@) >= leading_blank_escapes(raw@.skip(leading_blanks(raw@) as int)))
}

/// The indent common to a squiggly heredoc's lines: the one that its first
/// string part that has one shows; 0 for other heredocs.
pub fn heredoc_common_indent(parts: &[SyntaxNode], heredoc_kind: HeredocKind) -> (r: usize)
    requires
        parts_ok(parts@),
    ensures
        r == if heredoc_kind == HeredocKind::Squiggly {
            first_common_indent(parts@, 0)
        } else {
            0
        },
{
    if !heredoc_kind.is_squiggly() {
        return 0;
    }
    let mut i: usize = 0;
    while i < parts.len()
        invariant
            i <= parts@.len(),
            parts_ok(parts@),
            heredoc_kind == HeredocKind::Squiggly,
            first_common_indent(parts@, i as int) == first_common_indent(parts@, 0),
        decreases parts@.len() - i,
    {
        match &parts[i].kind {
            SyntaxKind::StringNode { raw, unescaped } => {
                assert(parts@[i as int].kind matches SyntaxKind::StringNode { raw, unescaped });
                match string_part_common_indent(raw.as_slice(), unescaped.as_slice()) {
                    Some(n) => {
                        assert(first_common_indent(parts@, i as int) == n);
                        return n;
                    },
                    None => {},
                }
            },
            _ => {},
        }
        i = i + 1;
    }
    0
}

/// One line of a heredoc's raw text without the common indent, where the
/// line starts at a line boundary, is not empty and is long enough.
pub open spec fn strip_line(line: Seq<u8>, at_boundary: bool, indent: nat) -> Seq<u8> {
    if at_boundary && line.len() > 0 && line.len() >= indent {
        line.skip(indent as int)
    } else {
        line
    }
}

/// The lines of `s` (split at `\n`, `line` being the part of the current line
/// already read, `at_boundary` whether it starts at a line boundary), each
/// without the common indent, joined by `\n`.
pub open spec fn strip_lines(s: Seq<u8>, line: Seq<u8>, at_boundary: bool, indent: nat) -> Seq<u8>
    decreases s.len(),
{
    if s.len() == 0 {
        strip_line(line, at_boundary, indent)
    } else if s[0] == 10u8 {
        strip_line(line, at_boundary, indent) + seq![10u8] + strip_lines(s.skip(1), Seq::empty(), true, indent)
    } else {
        strip_lines(s.skip(1), line.push(s[0]), at_boundary, indent)
    }
}

/// `out` followed by the bytes of `line[from..]`.
fn push_from(out: &mut Vec<u8>, line: &[u8], from: usize)
    requires
        from <= line@.len(),
    ensures
        final(out)@ == old(out)@ + line@.skip(from as int),
{
    let ghost start = out@;
    let mut k: usize = from;
    while k < line.len()
        invariant
            from <= k <= line@.len(),
            out@ == start + line@.subrange(from as int, k as int),
        decreases line@.len() - k,
    {
        out.push(line[k]);
        assert(line@.subrange(from as int, k + 1) =~= line@.subrange(from as int, k as int).push(line@[k as int]));
        k = k + 1;
    }
    assert(line@.subrange(from as int, k as int) =~= line@.skip(from as int));
}

/// A heredoc's raw text without the common indent on each line that starts
/// at a line boundary: every line but the first, and the first too where
/// the text before it ended with a newline.
pub fn strip_heredoc_indent(raw: &[u8], common_indent: usize, prev_ended_with_newline: bool) -> (r: Vec<u8>)
    ensures
        r@ == strip_lines(raw@, Seq::empty(), prev_ended_with_newline, common_indent as nat),
{
    let mut result: Vec<u8> = Vec::new();
    let mut line_start: usize = 0;
    let mut at_boundary = prev_ended_with_newline;
    let mut i: usize = 0;
    assert(raw@.skip(0) =~= raw@);
    assert(raw@.subrange(0, 0) =~= Seq::<u8>::empty());
    assert(result@ + strip_lines(raw@, Seq::empty(), prev_ended_with_newline, common_indent as nat) =~= strip_lines(raw@, Seq::empty(), prev_ended_with_newline, common_indent as nat));
    while i < raw.len()
        invariant
            line_start <= i <= raw@.len(),
            strip_lines(raw@, Seq::empty(), prev_ended_with_newline, common_indent as nat) == result@
                + strip_lines(raw@.skip(i as int), raw@.subrange(line_start as int, i as int), at_boundary, common_indent as nat),
            forall|k: int| line_start <= k < i ==> raw@[k] != 10u8,
        decreases raw@.len() - i,
    {
        let ghost rest = raw@.skip(i as int);
        assert(rest[0] == raw@[i as int]);
        assert(rest.skip(1) =~= raw@.skip(i + 1));
        if raw[i] == 10u8 {
            let line = vstd::slice::slice_subrange(raw, line_start, i);
            let strip = at_boundary && line.len() > 0 && line.len() >= common_indent;
            let from = if strip {
                common_indent
            } else {
                0
            };
            let ghost before = result@;
            push_from(&mut result, line, from);
            assert(line@.skip(0) =~= line@);
            result.push(10u8);
            assert(raw@.subrange(i + 1, i + 1) =~= Seq::<u8>::empty());
            assert(result@ =~= before + strip_line(raw@.subrange(line_start as int, i as int), at_boundary, common_indent as nat) + seq![10u8]);
            line_start = i + 1;
            at_boundary = true;
        } else {
            assert(raw@.subrange(line_start as int, i as int).push(raw@[i as int]) =~= raw@.subrange(line_start as int, i + 1));
        }
        i = i + 1;
    }
    let line = vstd::slice::slice_subrange(raw, line_start, raw.len());
    let strip = at_boundary && line.len() > 0 && line.len() >= common_indent;
    let from = if strip {
        common_indent
    } else {
        0
    };
    let ghost before = result@;
    push_from(&mut result, line, from);
    assert(line@.skip(0) =~= line@);
    assert(raw@.skip(i as int) =~= Seq::<u8>::empty());
    result
}

proof fn lemma_strip_nothing(s: Seq<u8>, line: Seq<u8>, at_boundary: bool)
    ensures
        strip_lines(s, line, at_boundary, 0) == line + s,
    decreases s.len(),
{
    assert(line.skip(0) =~= line);
    if s.len() > 0 {
        if s[0] == 10u8 {
            lemma_strip_nothing(s.skip(1), Seq::empty(), true);
            assert(Seq::<u8>::empty() + s.skip(1) =~= s.skip(1));
            assert(line + seq![10u8] + s.skip(1) =~= line + s);
        } else {
            lemma_strip_nothing(s.skip(1), line.push(s[0]), at_boundary);
            assert(line.push(s[0]) + s.skip(1) =~= line + s);
        }
    } else {
        assert(line + s =~= line);
    }
}

/// Without a common indent, stripping leaves a heredoc's text as it is.
pub proof fn law_zero_indent_strips_nothing(raw: Seq<u8>, prev_ended_with_newline: bool)
    ensures
        strip_lines(raw, Seq::empty(), prev_ended_with_newline, 0) == raw,
{
    lemma_strip_nothing(raw, Seq::empty(), prev_ended_with_newline);
    assert(Seq::<u8>::empty() + raw =~= raw);
}

/// Which kinds of parameter are present, in the order they are written:
/// required, optional, rest, post, keyword, keyword rest, block.
pub open spec fn parameter_kinds_present(params: ParametersNode) -> Seq<bool> {
    seq![
        params.requireds@.len() > 0,
        params.optionals@.len() > 0,
        params.rest is Some,
        params.posts@.len() > 0,
        params.keywords@.len() > 0,
        params.keyword_rest is Some,
        params.block is Some,
    ]
}

pub fn non_null_positions(params: &ParametersNode) -> (r: [bool; 7])
    ensures
        r@ == parameter_kinds_present(*params),
{
    let r = [
        params.requireds.len() > 0,
        params.optionals.len() > 0,
        params.rest.is_some(),
        params.posts.len() > 0,
        params.keywords.len() > 0,
        params.keyword_rest.is_some(),
        params.block.is_some(),
    ];
    assert(r@ =~= parameter_kinds_present(*params));
    r
}

} // verus!
