use std::borrow::Cow;
use vstd::prelude::*;

verus! {

pub open spec fn is_interpolation_sigil(b: u8) -> bool {
    b == 36u8 || b == 64u8 || b == 123u8
}

/// What `escape_string` produces for `s` when the opening delimiter is not `"`:
/// the content is read from left to right, one byte or one `\X` pair at a time.
pub open spec fn spec_escape_string(s: Seq<u8>, open: u8, close: u8) -> Seq<u8>
    decreases s.len(),
{
    if s.len() == 0 {
        Seq::empty()
    } else {
        let c = s[0];
        if c == 34u8 {
            seq![92u8, 34u8] + spec_escape_string(s.skip(1), open, close)
        } else if c == 92u8 && s.len() >= 2 {
            let n = s[1];
            let rest = spec_escape_string(s.skip(2), open, close);
            if n == 39u8 {
                seq![39u8] + rest
            } else if n == 92u8 {
                seq![92u8, 92u8] + rest
            } else if n == 34u8 {
                seq![92u8, 92u8, 92u8, 34u8] + rest
            } else if (n == open || n == close) && open != 39u8 {
                seq![n] + rest
            } else {
                seq![92u8, 92u8, n] + rest
            }
        } else if c == 35u8 && s.len() >= 2 && is_interpolation_sigil(s[1]) {
            seq![92u8, 35u8, s[1]] + spec_escape_string(s.skip(2), open, close)
        } else {
            seq![c] + spec_escape_string(s.skip(1), open, close)
        }
    }
}

/// The double-quoted form of a percent literal's content (`%Q(..)` and the like):
/// an escaped delimiter loses its backslash, a bare `"` gains one, every other
/// `\X` pair is kept as it is.
pub open spec fn spec_convert_percent(s: Seq<u8>, so: u8, eo: u8) -> Seq<u8>
    decreases s.len(),
{
    if s.len() == 0 {
        Seq::empty()
    } else {
        let c = s[0];
        if c == 92u8 && s.len() >= 2 {
            let n = s[1];
            let rest = spec_convert_percent(s.skip(2), so, eo);
            if n == so || n == eo {
                seq![n] + rest
            } else {
                seq![92u8, n] + rest
            }
        } else if c == 34u8 {
            seq![92u8, 34u8] + spec_convert_percent(s.skip(1), so, eo)
        } else {
            seq![c] + spec_convert_percent(s.skip(1), so, eo)
        }
    }
}

/// The first position at which `spec_convert_percent` changes anything, if any:
/// a `"`, or a backslash that escapes one of the two delimiters.
pub open spec fn spec_first_change(s: Seq<u8>, so: u8, eo: u8) -> Option<int>
    decreases s.len(),
{
    if s.len() == 0 {
        None
    } else if s[0] == 34u8 {
        Some(0)
    } else if s[0] == 92u8 && s.len() >= 2 {
        if s[1] == so || s[1] == eo {
            Some(0)
        } else {
            match spec_first_change(s.skip(2), so, eo) {
                Some(k) => Some(k + 2),
                None => None,
            }
        }
    } else {
        match spec_first_change(s.skip(1), so, eo) {
            Some(k) => Some(k + 1),
            None => None,
        }
    }
}

/// The content of a word array (`%w(..)`) once it is written between `[` and `]`.
pub open spec fn spec_escape_word_array(s: Seq<u8>, oo: u8, oc: u8) -> Seq<u8>
    decreases s.len(),
{
    if s.len() == 0 {
        Seq::empty()
    } else {
        let c = s[0];
        if c == 92u8 && s.len() >= 2 {
            let n = s[1];
            let rest = spec_escape_word_array(s.skip(2), oo, oc);
            if n == 92u8 {
                seq![92u8, 92u8] + rest
            } else if n == oo || n == oc {
                if n == 91u8 || n == 93u8 {
                    seq![92u8, n] + rest
                } else {
                    seq![n] + rest
                }
            } else {
                seq![92u8, n] + rest
            }
        } else if c == 91u8 || c == 93u8 {
            seq![92u8, c] + spec_escape_word_array(s.skip(1), oo, oc)
        } else {
            seq![c] + spec_escape_word_array(s.skip(1), oo, oc)
        }
    }
}

/// Whether a delimiter is the single quote `'` or starts with `%q`.
pub open spec fn spec_is_single_quote_style(d: Seq<u8>) -> bool {
    d =~= seq![39u8] || (d.len() >= 2 && d[0] == 37u8 && d[1] == 113u8)
}

/// The double-quoted rendering of a string's content, by its delimiters.
pub open spec fn spec_single_to_double_quoted(content: Seq<u8>, start: Seq<u8>, end: Seq<u8>) -> Seq<u8>
    recommends start.len() > 0, end.len() > 0,
{
    if spec_is_single_quote_style(start) {
        if start.last() == 34u8 {
            content
        } else {
            spec_escape_string(content, start.last(), end.last())
        }
    } else {
        spec_convert_percent(content, start.last(), end.last())
    }
}

proof fn lemma_first_change_prefix(s: Seq<u8>, so: u8, eo: u8)
    ensures
        spec_first_change(s, so, eo) matches Some(k) ==> {
            &&& 0 <= k < s.len()
            &&& spec_convert_percent(s, so, eo) == s.take(k) + spec_convert_percent(s.skip(k), so, eo)
        },
        spec_first_change(s, so, eo) is None ==> spec_convert_percent(s, so, eo) == s,
    decreases s.len(),
{
    if s.len() == 0 {
        assert(spec_convert_percent(s, so, eo) =~= s);
    } else if s[0] == 34u8 {
        assert(s.take(0) + s.skip(0) =~= s.skip(0));
        assert(s.skip(0) =~= s);
    } else if s[0] == 92u8 && s.len() >= 2 {
        if s[1] == so || s[1] == eo {
            assert(s.take(0) + spec_convert_percent(s.skip(0), so, eo) =~= spec_convert_percent(s, so, eo)) by {
                assert(s.skip(0) =~= s);
            }
        } else {
            let t = s.skip(2);
            lemma_first_change_prefix(t, so, eo);
            match spec_first_change(t, so, eo) {
                Some(k) => {
                    assert(s.skip(k + 2) =~= t.skip(k));
                    assert(s.take(k + 2) =~= seq![92u8, s[1]] + t.take(k));
                }
                None => {
                    assert(s =~= seq![92u8, s[1]] + t);
                }
            }
        }
    } else {
        let t = s.skip(1);
        lemma_first_change_prefix(t, so, eo);
        match spec_first_change(t, so, eo) {
            Some(k) => {
                assert(s.skip(k + 1) =~= t.skip(k));
                assert(s.take(k + 1) =~= seq![s[0]] + t.take(k));
            }
            None => {
                assert(s =~= seq![s[0]] + t);
            }
        }
    }
}

/// A percent literal whose content holds no `"` and no escaped delimiter is
/// written out unchanged.
pub proof fn law_percent_literal_without_changes_is_unchanged(s: Seq<u8>, so: u8, eo: u8)
    requires
        spec_first_change(s, so, eo) is None,
    ensures
        spec_convert_percent(s, so, eo) == s,
{
    lemma_first_change_prefix(s, so, eo);
}

/// Content of a single-quoted string that holds no `"`, no backslash and no `#`
/// is written out unchanged in double quotes.
pub proof fn law_plain_single_quoted_content_is_unchanged(s: Seq<u8>, open: u8, close: u8)
    requires
        forall|i: int| 0 <= i < s.len() ==> s[i] != 34u8 && s[i] != 92u8 && s[i] != 35u8,
    ensures
        spec_escape_string(s, open, close) == s,
    decreases s.len(),
{
    if s.len() > 0 {
        law_plain_single_quoted_content_is_unchanged(s.skip(1), open, close);
        assert(s =~= seq![s[0]] + s.skip(1));
    }
}

/// Word-array content that holds no backslash and no square bracket is
/// written out unchanged between `[` and `]`.
pub proof fn law_plain_word_array_content_is_unchanged(s: Seq<u8>, oo: u8, oc: u8)
    requires
        forall|i: int| 0 <= i < s.len() ==> s[i] != 92u8 && s[i] != 91u8 && s[i] != 93u8,
    ensures
        spec_escape_word_array(s, oo, oc) == s,
    decreases s.len(),
{
    if s.len() > 0 {
        law_plain_word_array_content_is_unchanged(s.skip(1), oo, oc);
        assert(s =~= seq![s[0]] + s.skip(1));
    }
}

/// Percent-literal content holding no `"` and no backslash is written out
/// unchanged.
proof fn lemma_plain_percent_unchanged(s: Seq<u8>, so: u8, eo: u8)
    requires
        forall|i: int| 0 <= i < s.len() ==> s[i] != 34u8 && s[i] != 92u8,
    ensures
        spec_convert_percent(s, so, eo) == s,
    decreases s.len(),
{
    if s.len() > 0 {
        lemma_plain_percent_unchanged(s.skip(1), so, eo);
        assert(s =~= seq![s[0]] + s.skip(1));
    }
}

/// No `#` followed by `{`, `$` or `@` stands without a backslash before it.
pub open spec fn interpolation_escaped(o: Seq<u8>) -> bool {
    forall|i: int|
        0 <= i < o.len() - 1 && o[i] == 35u8 && is_interpolation_sigil(#[trigger] o[i + 1]) ==> i > 0 && o[i
            - 1] == 92u8
}

/// In single-quote style, interpolation is switched off (for content holding
/// no `"` and no backslash).
proof fn lemma_escaped_interpolation(s: Seq<u8>, open: u8, close: u8)
    requires
        forall|i: int| 0 <= i < s.len() ==> s[i] != 34u8 && s[i] != 92u8,
    ensures
        interpolation_escaped(spec_escape_string(s, open, close)),
        s.len() > 0 ==> spec_escape_string(s, open, close).len() > 0 && (spec_escape_string(s, open, close)[0]
            == s[0] || spec_escape_string(s, open, close)[0] == 92u8),
    decreases s.len(),
{
    if s.len() > 0 {
        let c = s[0];
        let o = spec_escape_string(s, open, close);
        if c == 35u8 && s.len() >= 2 && is_interpolation_sigil(s[1]) {
            let t = s.skip(2);
            lemma_escaped_interpolation(t, open, close);
            let ot = spec_escape_string(t, open, close);
            assert(o == seq![92u8, 35u8, s[1]] + ot);
            assert forall|i: int|
                0 <= i < o.len() - 1 && o[i] == 35u8 && is_interpolation_sigil(#[trigger] o[i + 1]) implies i > 0
                && o[i - 1] == 92u8 by {
                if i >= 3 {
                    assert(o[i] == ot[i - 3]);
                    assert(o[i + 1] == ot[i - 2]);
                    assert(is_interpolation_sigil(ot[(i - 3) + 1]));
                    assert(o[i - 1] == ot[i - 4]);
                }
            }
        } else {
            let t = s.skip(1);
            lemma_escaped_interpolation(t, open, close);
            let ot = spec_escape_string(t, open, close);
            assert(o == seq![c] + ot);
            assert forall|i: int|
                0 <= i < o.len() - 1 && o[i] == 35u8 && is_interpolation_sigil(#[trigger] o[i + 1]) implies i > 0
                && o[i - 1] == 92u8 by {
                if i == 0 {
                    assert(o[1] == ot[0]);
                    assert(t.len() > 0);
                    assert(ot[0] == t[0] || ot[0] == 92u8);
                    assert(t[0] == s[1]);
                    assert(false);
                } else {
                    assert(o[i] == ot[i - 1]);
                    assert(o[i + 1] == ot[i]);
                    assert(is_interpolation_sigil(ot[(i - 1) + 1]));
                    assert(o[i - 1] == ot[i - 2]);
                }
            }
        }
    }
}

/// Which delimiters give a string single-quote rules: for `'` and for a
/// percent literal starting `%q`, interpolation is switched off (every
/// `#{`, `#$`, `#@` of the content comes out behind a backslash); for every
/// other percent literal (`%(`, `%Q(`, `%[`, ...) content holding no `"` and
/// no backslash comes back unchanged, its interpolation kept.
pub proof fn law_quote_style_of_delimiters(content: Seq<u8>, start: Seq<u8>, end: Seq<u8>)
    requires
        start.len() > 0,
        end.len() > 0,
        forall|i: int| 0 <= i < content.len() ==> content[i] != 34u8 && content[i] != 92u8,
    ensures
        start.len() >= 2 && start[0] == 37u8 && start[1] != 113u8 ==> spec_single_to_double_quoted(
            content,
            start,
            end,
        ) == content,
        (start == seq![39u8] || (start.len() >= 2 && start[0] == 37u8 && start[1] == 113u8)) && start.last()
            != 34u8 ==> interpolation_escaped(spec_single_to_double_quoted(content, start, end)),
{
    lemma_plain_percent_unchanged(content, start.last(), end.last());
    lemma_escaped_interpolation(content, start.last(), end.last());
    if start.len() >= 2 && start[0] == 37u8 && start[1] != 113u8 {
        assert(!(start =~= seq![39u8]));
    }
    if start == seq![39u8] {
        assert(start =~= seq![39u8]);
    }
}

/// The content of a single-quoted or percent string literal, rewritten for
/// double quotes. Percent literals that need no change come back borrowed.
pub fn single_to_double_quoted<'src>(
    content: &'src [u8],
    start_delim: &'src [u8],
    end_delim: &'src [u8],
) -> (r: Cow<'src, [u8]>)
    requires
        start_delim@.len() > 0,
        end_delim@.len() > 0,
    ensures
        r@ == spec_single_to_double_quoted(content@, start_delim@, end_delim@),
        spec_is_single_quote_style(start_delim@) ==> r is Owned,
        !spec_is_single_quote_style(start_delim@) ==> ((r is Borrowed) <==> spec_first_change(
            content@,
            start_delim@.last(),
            end_delim@.last(),
        ) is None),
{
    let sl = start_delim.len();
    let el = end_delim.len();
    let single = (sl == 1 && start_delim[0] == 39u8) || (sl >= 2 && start_delim[0] == 37u8
        && start_delim[1] == 113u8);
    proof {
        if sl == 1 && start_delim[0] == 39u8 {
            assert(start_delim@ =~= seq![39u8]);
        }
        if start_delim@ =~= seq![39u8] {
            assert(start_delim@[0] == 39u8);
        }
    }
    if single {
        Cow::Owned(escape_string(content, start_delim[sl - 1], end_delim[el - 1]))
    } else {
        convert_percent_literal_escapes(content, start_delim[sl - 1], end_delim[el - 1])
    }
}

/// Rewrites a percent literal's content for double quotes (see
/// `spec_convert_percent`). Borrows the input when nothing changes.
fn convert_percent_literal_escapes(content: &[u8], start_delim: u8, end_delim: u8) -> (r: Cow<'_, [u8]>)
    ensures
        r@ == spec_convert_percent(content@, start_delim, end_delim),
        (r is Borrowed) <==> spec_first_change(content@, start_delim, end_delim) is None,
{
    let len = content.len();
    let mut pos: Option<usize> = None;
    let mut i: usize = 0;
    proof {
        assert(content@.skip(0) =~= content@);
    }
    while i < len
        invariant_except_break
            len == content@.len(),
            i <= len,
            pos is None,
            spec_first_change(content@, start_delim, end_delim) == (match spec_first_change(
                content@.skip(i as int),
                start_delim,
                end_delim,
            ) {
                Some(k) => Some(k + i),
                None => None,
            }),
        ensures
            len == content@.len(),
            spec_first_change(content@, start_delim, end_delim) == (match pos {
                Some(p) => Some(p as int),
                None => None::<int>,
            }),
        decreases len - i,
    {
        let c = content[i];
        let ghost t = content@.skip(i as int);
        if c == 34u8 {
            pos = Some(i);
            break ;
        } else if c == 92u8 && i + 1 < len {
            let next = content[i + 1];
            if next == start_delim || next == end_delim {
                pos = Some(i);
                break ;
            }
            assert(t.skip(2) =~= content@.skip(i + 2));
            i = i + 2;
        } else {
            assert(t.skip(1) =~= content@.skip(i + 1));
            i = i + 1;
        }
    }
    let start = match pos {
        None => {
            proof {
                lemma_first_change_prefix(content@, start_delim, end_delim);
            }
            return Cow::Borrowed(content);
        },
        Some(p) => p,
    };
    proof {
        lemma_first_change_prefix(content@, start_delim, end_delim);
    }
    let mut output: Vec<u8> = Vec::new();
    let mut j: usize = 0;
    while j < start
        invariant
            start < len,
            len == content@.len(),
            j <= start,
            output@ =~= content@.take(j as int),
        decreases start - j,
    {
        output.push(content[j]);
        j = j + 1;
    }
    let mut k: usize = start;
    proof {
        assert(content@.take(start as int) =~= output@);
    }
    while k < len
        invariant
            start <= k <= len,
            len == content@.len(),
            spec_convert_percent(content@, start_delim, end_delim) == output@
                + spec_convert_percent(content@.skip(k as int), start_delim, end_delim),
        decreases len - k,
    {
        let ghost t = content@.skip(k as int);
        let ghost before = output@;
        let c = content[k];
        if c == 92u8 {
            if k + 1 < len {
                let next = content[k + 1];
                if next == start_delim || next == end_delim {
                    output.push(next);
                } else {
                    output.push(92u8);
                    output.push(next);
                }
                proof {
                    assert(t.skip(2) =~= content@.skip(k + 2));
                }
                k = k + 2;
            } else {
                output.push(92u8);
                proof {
                    assert(t.skip(1) =~= content@.skip(k + 1));
                }
                k = k + 1;
            }
        } else if c == 34u8 {
            output.push(92u8);
            output.push(34u8);
            proof {
                assert(t.skip(1) =~= content@.skip(k + 1));
            }
            k = k + 1;
        } else {
            output.push(c);
            proof {
                assert(t.skip(1) =~= content@.skip(k + 1));
            }
            k = k + 1;
        }
        assert(output@ + spec_convert_percent(content@.skip(k as int), start_delim, end_delim)
            =~= before + spec_convert_percent(t, start_delim, end_delim));
    }
    proof {
        assert(spec_convert_percent(content@.skip(len as int), start_delim, end_delim) =~= Seq::<u8>::empty());
        assert(output@ + Seq::<u8>::empty() =~= output@);
    }
    Cow::Owned(output)
}

/// Escapes content for word arrays when converting to bracket delimiters:
/// an escaped delimiter of the literal as written loses its backslash unless it is itself a
/// square bracket, and bare square brackets gain one.
pub fn escape_word_array_content(content: &[u8], orig_open_delim: u8, orig_close_delim: u8) -> (r:
    Vec<u8>)
    ensures
        r@ == spec_escape_word_array(content@, orig_open_delim, orig_close_delim),
{
    let len = content.len();
    let mut output: Vec<u8> = Vec::new();
    let mut k: usize = 0;
    proof {
        assert(content@.skip(0) =~= content@);
        assert(output@ + spec_escape_word_array(content@, orig_open_delim, orig_close_delim)
            =~= spec_escape_word_array(content@, orig_open_delim, orig_close_delim));
    }
    while k < len
        invariant
            k <= len,
            len == content@.len(),
            spec_escape_word_array(content@, orig_open_delim, orig_close_delim) == output@
                + spec_escape_word_array(content@.skip(k as int), orig_open_delim, orig_close_delim),
        decreases len - k,
    {
        let ghost t = content@.skip(k as int);
        let ghost before = output@;
        let c = content[k];
        if c == 92u8 {
            if k + 1 < len {
                let next = content[k + 1];
                if next == 92u8 {
                    output.push(92u8);
                    output.push(92u8);
                } else if next == orig_open_delim || next == orig_close_delim {
                    if next == 91u8 || next == 93u8 {
                        output.push(92u8);
                    }
                    output.push(next);
                } else {
                    output.push(92u8);
                    output.push(next);
                }
                proof {
                    assert(t.skip(2) =~= content@.skip(k + 2));
                }
                k = k + 2;
            } else {
                output.push(92u8);
                proof {
                    assert(t.skip(1) =~= content@.skip(k + 1));
                }
                k = k + 1;
            }
        } else if c == 91u8 || c == 93u8 {
            output.push(92u8);
            output.push(c);
            proof {
                assert(t.skip(1) =~= content@.skip(k + 1));
            }
            k = k + 1;
        } else {
            output.push(c);
            proof {
                assert(t.skip(1) =~= content@.skip(k + 1));
            }
            k = k + 1;
        }
        assert(output@ + spec_escape_word_array(content@.skip(k as int), orig_open_delim, orig_close_delim)
            =~= before + spec_escape_word_array(t, orig_open_delim, orig_close_delim));
    }
    proof {
        assert(spec_escape_word_array(content@.skip(len as int), orig_open_delim, orig_close_delim)
            =~= Seq::<u8>::empty());
        assert(output@ + Seq::<u8>::empty() =~= output@);
    }
    output
}

/// The content of a single-quoted (or `%q`) string, escaped for double quotes.
/// Content already delimited by `"` is copied as it is.
fn escape_string(content: &[u8], opening_delim: u8, closing_delim: u8) -> (r: Vec<u8>)
    ensures
        opening_delim == 34u8 ==> r@ == content@,
        opening_delim != 34u8 ==> r@ == spec_escape_string(content@, opening_delim, closing_delim),
{
    if opening_delim == 34u8 {
        return vstd::slice::slice_to_vec(content);
    }
    let len = content.len();
    let mut output: Vec<u8> = Vec::new();
    let mut k: usize = 0;
    proof {
        assert(content@.skip(0) =~= content@);
        assert(output@ + spec_escape_string(content@, opening_delim, closing_delim)
            =~= spec_escape_string(content@, opening_delim, closing_delim));
    }
    while k < len
        invariant
            k <= len,
            len == content@.len(),
            spec_escape_string(content@, opening_delim, closing_delim) == output@
                + spec_escape_string(content@.skip(k as int), opening_delim, closing_delim),
        decreases len - k,
    {
        let ghost t = content@.skip(k as int);
        let ghost before = output@;
        let c = content[k];
        if c == 34u8 {
            output.push(92u8);
            output.push(34u8);
            proof {
                assert(t.skip(1) =~= content@.skip(k + 1));
            }
            k = k + 1;
        } else if c == 92u8 && k + 1 < len {
            let next = content[k + 1];
            if next == 39u8 {
                output.push(39u8);
            } else if next == 92u8 {
                output.push(92u8);
                output.push(92u8);
            } else if next == 34u8 {
                output.push(92u8);
                output.push(92u8);
                output.push(92u8);
                output.push(34u8);
            } else if (next == opening_delim || next == closing_delim) && opening_delim != 39u8 {
                output.push(next);
            } else {
                output.push(92u8);
                output.push(92u8);
                output.push(next);
            }
            proof {
                assert(t.skip(2) =~= content@.skip(k + 2));
            }
            k = k + 2;
        } else if c == 35u8 && k + 1 < len && (content[k + 1] == 36u8 || content[k + 1] == 64u8
            || content[k + 1] == 123u8) {
            let next = content[k + 1];
            output.push(92u8);
            output.push(35u8);
            output.push(next);
            proof {
                assert(t.skip(2) =~= content@.skip(k + 2));
            }
            k = k + 2;
        } else {
            output.push(c);
            proof {
                assert(t.skip(1) =~= content@.skip(k + 1));
            }
            k = k + 1;
        }
        assert(output@ + spec_escape_string(content@.skip(k as int), opening_delim, closing_delim)
            =~= before + spec_escape_string(t, opening_delim, closing_delim));
    }
    proof {
        assert(spec_escape_string(content@.skip(len as int), opening_delim, closing_delim)
            =~= Seq::<u8>::empty());
        assert(output@ + Seq::<u8>::empty() =~= output@);
    }
    output
}

} // verus!
