use crate::parser_state::ParserState;
use crate::line_tokens::{AbstractLineToken, ConcreteLineToken};
use vstd::prelude::*;

verus! {

#[derive(Debug, Clone, Copy, PartialEq, Eq, Structural)]
pub enum SpecialCase {
    NoSpecialCase,
    NoLeadingTrailingCollectionMarkers,
    RestParamOutsideOfParamDef,
}

#[derive(Debug, PartialEq, Eq, Structural)]
pub enum StringType {
    Quoted,
    Heredoc,
    Array,
    Regexp,
}

/// Between parameters (not after the last one): a comma and a soft newline.
pub fn emit_params_separator(ps: &mut ParserState, index: usize, length: usize)
    requires
        old(ps).wf(),
        length > 0,
        index != length - 1 ==> old(ps).breakable_entry_stack@.len() > 0,
    ensures
        final(ps).wf(),
        index == length - 1 ==> *final(ps) == *old(ps),
        index != length - 1 ==> {
            &&& final(ps).target().len() >= 2
            &&& final(ps).target().drop_last() == old(ps).shifted_target().push(
                AbstractLineToken::ConcreteLineToken(ConcreteLineToken::Comma),
            )
            &&& final(ps).target().last() is SoftNewline
            &&& old(ps).heredoc_strings@.len() == 0 ==> final(ps).target().last() == AbstractLineToken::SoftNewline(
                None,
            )
            &&& final(ps).frame() == old(ps).frame()
        },
{
    if index != length - 1 {
        let ghost st = *ps;
        ps.emit_comma();
        let ghost mid = *ps;
        proof {
            lemma_comma_stays_last(&mid);
            lemma_shift_after_comma(&st, &mid);
        }
        ps.emit_soft_newline();
        assert(ps.frame() == mid.frame());
        assert(ps.target().take(mid.shifted_target().len() as int) == mid.shifted_target());
        assert(ps.target().drop_last() =~= mid.shifted_target());
    }
}

/// A comma pushed inside a breakable entry comes after the pending comments:
/// inserting them then gives the target with them inserted, and the comma.
proof fn lemma_shift_after_comma(old: &ParserState, mid: &ParserState)
    requires
        old.breakable_entry_stack@.len() > 0,
        mid.target() == old.target().push(AbstractLineToken::ConcreteLineToken(ConcreteLineToken::Comma)),
        mid.same_but_target(old),
    ensures
        mid.shifted_target() == old.shifted_target().push(
            AbstractLineToken::ConcreteLineToken(ConcreteLineToken::Comma),
        ),
{
    let ts = old.target();
    let c = AbstractLineToken::ConcreteLineToken(ConcreteLineToken::Comma);
    assert(ts.push(c).drop_last() =~= ts);
    assert(crate::render_targets::abstract_last_break(ts.push(c)) == crate::render_targets::abstract_last_break(ts));
    crate::render_targets::lemma_abstract_last_break_bound(ts);
    assert(mid.spec_prev_newline() == old.spec_prev_newline());
    let index = match old.spec_prev_newline() {
        Some(i) => i,
        None => 0,
    };
    assert(0 <= index <= ts.len());
    assert(ts.push(c).take(index) =~= ts.take(index));
    assert(ts.push(c).skip(index) =~= ts.skip(index).push(c));
    match old.comments_to_insert {
        Some(cm) => {
            let ct = crate::comment_block::comment_tokens(cm.comments@, cm.comments@.len()).map_values(
                |t: ConcreteLineToken| AbstractLineToken::ConcreteLineToken(t),
            );
            assert(ts.take(index) + ct + ts.skip(index).push(c) =~= (ts.take(index) + ct + ts.skip(index)).push(c));
        },
        None => {},
    }
}

/// After a comma inside a breakable entry, the pending comments go before
/// the comma, which stays last.
proof fn lemma_comma_stays_last(ps: &ParserState)
    requires
        ps.breakable_entry_stack@.len() > 0,
        ps.target().len() > 0,
        ps.target().last() == AbstractLineToken::ConcreteLineToken(ConcreteLineToken::Comma),
    ensures
        ps.shifted_target().len() > 0,
        ps.shifted_target().last() == AbstractLineToken::ConcreteLineToken(ConcreteLineToken::Comma),
{
    let ts = ps.breakable_entry_stack@.last().spec_tokens();
    crate::render_targets::lemma_abstract_last_break_bound(ts);
    assert(!ts.last().spec_is_newline() && !ts.last().spec_is_indent());
    match crate::render_targets::abstract_last_break(ts) {
        Some(i) => {
            assert(i < ts.len() - 1);
        },
        None => {},
    }
    let index = match ps.spec_prev_newline() {
        Some(i) => i,
        None => 0,
    };
    assert(0 <= index < ts.len());
    match ps.comments_to_insert {
        Some(c) => {
            let sh = ts.take(index) + crate::comment_block::comment_tokens(c.comments@, c.comments@.len()).map_values(
                |t: ConcreteLineToken| AbstractLineToken::ConcreteLineToken(t),
            ) + ts.skip(index);
            assert(sh.last() == ts.skip(index).last());
        },
        None => {},
    }
}

/// The percent-literal prefix for a word or symbol array tag.
pub fn percent_symbol_for(tag: String) -> (r: String)
    requires
        tag@ == "qsymbols"@ || tag@ == "qwords"@ || tag@ == "symbols"@ || tag@ == "words"@,
    ensures
        tag@ == "qsymbols"@ ==> r@ == "%i"@,
        tag@ == "qwords"@ ==> r@ == "%w"@,
        tag@ == "symbols"@ ==> r@ == "%I"@,
        tag@ == "words"@ ==> r@ == "%W"@,
{
    proof {
        reveal_strlit("qsymbols");
        reveal_strlit("qwords");
        reveal_strlit("symbols");
        reveal_strlit("words");
        assert("qwords"@.len() != "qsymbols"@.len());
        assert("symbols"@.len() != "qsymbols"@.len());
        assert("symbols"@[0] != "qwords"@[0]);
    }
    if tag == "qsymbols".to_owned() {
        "%i".to_owned()
    } else if tag == "qwords".to_owned() {
        "%w".to_owned()
    } else if tag == "symbols".to_owned() {
        "%I".to_owned()
    } else {
        "%W".to_owned()
    }
}

/// Between array elements: `, ` on one line; otherwise a comma, a soft
/// newline and a soft indent.
pub fn emit_intermediate_array_separator(ps: &mut ParserState, single_line: bool)
    requires
        old(ps).wf(),
        !single_line ==> old(ps).breakable_entry_stack@.len() > 0,
    ensures
        final(ps).wf(),
        final(ps).frame() == old(ps).frame(),
        single_line ==> final(ps).target() == old(ps).target().push(
            AbstractLineToken::ConcreteLineToken(ConcreteLineToken::CommaSpace),
        ),
        !single_line ==> {
            let t = final(ps).target();
            &&& t.len() >= 3
            &&& t.take(t.len() - 2) == old(ps).shifted_target().push(
                AbstractLineToken::ConcreteLineToken(ConcreteLineToken::Comma),
            )
            &&& t[t.len() - 2] is SoftNewline
            &&& old(ps).heredoc_strings@.len() == 0 ==> t[t.len() - 2] == AbstractLineToken::SoftNewline(None)
            &&& t.last() == AbstractLineToken::SoftIndent { depth: old(ps).spec_current_spaces() }
        },
{
    if single_line {
        ps.emit_comma_space();
    } else {
        let ghost st = *ps;
        ps.emit_comma();
        let ghost mid = *ps;
        proof {
            lemma_comma_stays_last(&mid);
            lemma_shift_after_comma(&st, &mid);
        }
        ps.emit_soft_newline();
        assert(ps.target().take(mid.shifted_target().len() as int) == mid.shifted_target());
        assert(ps.target()[ps.target().len() - 2] == mid.shifted_target().last());
        let ghost t2 = ps.target();
        ps.emit_soft_indent();
        assert(ps.target()[ps.target().len() - 3] == t2[t2.len() - 2]);
        assert(ps.target()[ps.target().len() - 2] == t2[t2.len() - 1]);
        assert(ps.target().take(ps.target().len() - 2) =~= t2.drop_last());
        assert(t2.drop_last() =~= mid.shifted_target());
    }
}

} // verus!
