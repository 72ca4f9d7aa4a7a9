use std::borrow::Cow;
use vstd::prelude::*;

verus! {

/// `n` spaces.
pub open spec fn spaces(n: nat) -> Seq<u8> {
    Seq::new(n, |i: int| 32u8)
}

/// The deepest indent handed out without allocating.
pub const MAX_CACHED_INDENT: usize = 128;

/// Returns `depth` spaces: a static slice for common depths (up to
/// `MAX_CACHED_INDENT`), a fresh allocation only for huge indents.
pub fn get_indent(depth: usize) -> (r: Cow<'static, [u8]>)
    ensures
        r@ == spaces(depth as nat),
        (r is Borrowed) == (depth <= MAX_CACHED_INDENT),
{
    if depth <= MAX_CACHED_INDENT {
        let all: &'static [u8; 128] = &[32u8; 128];
        assert(all@ =~= spaces(128)) by {
            broadcast use vstd::array::group_array_axioms;
            assert(*all == vstd::array::spec_array_fill_for_copy_type::<u8, 128>(32u8));
        }
        let part = vstd::slice::slice_subrange(all.as_slice(), 0, depth);
        assert(part@ =~= spaces(depth as nat));
        Cow::Borrowed(part)
    } else {
        let r = vec![32u8; depth];
        assert(r@ =~= spaces(depth as nat));
        Cow::Owned(r)
    }
}

/// `depth` spaces as a vector of their own.
pub fn indent_vec(depth: usize) -> (r: Vec<u8>)
    ensures
        r@ == spaces(depth as nat),
{
    match get_indent(depth) {
        Cow::Borrowed(b) => bytes_of(b),
        Cow::Owned(v) => v,
    }
}

/// A copy of the bytes of `s`.
pub fn bytes_of(s: &[u8]) -> (r: Vec<u8>)
    ensures
        r@ == s@,
{
    vstd::slice::slice_to_vec(s)
}

/// Whether two byte strings are equal.
pub fn bytes_eq(a: &[u8], b: &[u8]) -> (r: bool)
    ensures
        r == (a@ == b@),
{
    if a.len() != b.len() {
        return false;
    }
    let mut i: usize = 0;
    while i < a.len()
        invariant
            a@.len() == b@.len(),
            i <= a@.len(),
            forall|j: int| 0 <= j < i ==> a@[j] == b@[j],
        decreases a@.len() - i,
    {
        if a[i] != b[i] {
            return false;
        }
        i = i + 1;
    }
    assert(a@ =~= b@);
    true
}

} // verus!
