use vstd::prelude::*;

verus! {

/// What the intermediary has seen on one output line.
#[derive(Debug)]
pub struct LineMetadata {
    pub has_conditional: bool,
    pub has_end: bool,
    pub has_def: bool,
    pub has_do_keyword: bool,
    pub gets_indented: bool,
    pub indent_level: Option<u32>,
    pub require: bool,
}

/// `None` is below every level; levels compare as numbers.
pub open spec fn level_lt(a: Option<u32>, b: Option<u32>) -> bool {
    match (a, b) {
        (None, Some(_)) => true,
        (Some(x), Some(y)) => x < y,
        _ => false,
    }
}

/// What is known of a line before any of its tokens.
pub open spec fn fresh_line_metadata() -> LineMetadata {
    LineMetadata {
        has_conditional: false,
        has_end: false,
        has_def: false,
        has_do_keyword: false,
        gets_indented: false,
        indent_level: None,
        require: false,
    }
}

impl LineMetadata {
    pub open spec fn spec_wants_spacer(&self) -> bool {
        !(self.has_conditional || self.has_end || self.has_def || self.has_do_keyword
            || self.gets_indented)
    }

    pub open spec fn is_fresh(&self) -> bool {
        &&& !self.has_conditional
        &&& !self.has_end
        &&& !self.has_def
        &&& !self.has_do_keyword
        &&& !self.gets_indented
        &&& self.indent_level is None
        &&& !self.require
    }

    pub fn indent_level_increases_between(prev: &LineMetadata, current: &LineMetadata) -> (r: bool)
        ensures
            r == level_lt(prev.indent_level, current.indent_level),
    {
        match (prev.indent_level, current.indent_level) {
            (None, Some(_)) => true,
            (Some(x), Some(y)) => x < y,
            _ => false,
        }
    }

    pub fn new() -> (r: Self)
        ensures
            r.is_fresh(),
            r == fresh_line_metadata(),
    {
        LineMetadata {
            has_conditional: false,
            has_end: false,
            has_def: false,
            has_do_keyword: false,
            gets_indented: false,
            indent_level: None,
            require: false,
        }
    }

    pub fn set_has_require(&mut self)
        ensures
            *final(self) == (LineMetadata { require: true, ..*old(self) }),
    {
        self.require = true;
    }

    pub fn has_require(&self) -> (r: bool)
        ensures
            r == self.require,
    {
        self.require
    }

    pub fn observe_indent_level(&mut self, level: u32)
        ensures
            *final(self) == (LineMetadata { indent_level: Some(level), ..*old(self) }),
    {
        self.indent_level = Some(level);
    }

    pub fn set_has_end(&mut self)
        ensures
            *final(self) == (LineMetadata { has_end: true, ..*old(self) }),
    {
        self.has_end = true;
    }

    pub fn set_has_def(&mut self)
        ensures
            *final(self) == (LineMetadata { has_def: true, ..*old(self) }),
    {
        self.has_def = true;
    }

    pub fn set_has_do_keyword(&mut self)
        ensures
            *final(self) == (LineMetadata { has_do_keyword: true, ..*old(self) }),
    {
        self.has_do_keyword = true;
    }

    pub fn set_has_conditional(&mut self)
        ensures
            *final(self) == (LineMetadata { has_conditional: true, ..*old(self) }),
    {
        self.has_conditional = true;
    }

    /// A line that opens no block and holds no conditional, `def`, `do` or
    /// `end` wants a blank line before an `if` that follows it.
    pub fn wants_spacer_for_conditional(&self) -> (r: bool)
        ensures
            r == self.spec_wants_spacer(),
    {
        !(self.has_conditional || self.has_end || self.has_def || self.has_do_keyword
            || self.gets_indented)
    }

    pub fn gets_indented(&self) -> (r: bool)
        ensures
            r == self.gets_indented,
    {
        self.gets_indented
    }

    pub fn set_gets_indented(&mut self)
        ensures
            *final(self) == (LineMetadata { gets_indented: true, ..*old(self) }),
    {
        self.gets_indented = true;
    }
}

} // verus!
