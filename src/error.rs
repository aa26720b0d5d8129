use vstd::prelude::*;

verus! {

/// What the parser expected at the point where it failed.
#[derive(Clone, Copy, Debug, PartialEq, Eq, Structural)]
pub enum ParseErrorKind {
    /// A backslash followed by something other than `{`, `}`, `,` or `\`.
    InvalidEscape,
    /// The input ended inside a group: a `,` or `}` was expected.
    UnclosedGroup,
    /// A special character that cannot stand where it was found.
    UnexpectedChar,
}

/// The first point at which a pattern failed to parse.
#[derive(Clone, Copy, Debug, PartialEq, Eq, Structural)]
pub struct GlobParseError {
    pub kind: ParseErrorKind,
    /// Index, in characters, of the offending input position.
    pub position: usize,
    /// The character found there, or `None` at the end of the input.
    pub found: Option<char>,
}

impl GlobParseError {
    pub fn kind(&self) -> (r: ParseErrorKind)
        ensures
            r == self.kind,
    {
        self.kind
    }

    pub fn position(&self) -> (r: usize)
        ensures
            r == self.position,
    {
        self.position
    }

    pub fn found(&self) -> (r: Option<char>)
        ensures
            r == self.found,
    {
        self.found
    }

    /// The first of a non-empty list of failures: only that one is reported.
    pub fn from_causes(causes: Vec<GlobParseError>) -> (r: GlobParseError)
        requires
            causes@.len() > 0,
        ensures
            r == causes@[0],
    {
        causes[0]
    }
}

/// An error from parsing text as a single literal.
#[derive(Clone, Copy, Debug, PartialEq, Eq, Structural)]
pub struct LiteralParseError(pub GlobParseError);

impl LiteralParseError {
    pub fn cause(&self) -> (r: GlobParseError)
        ensures
            r == self.0,
    {
        self.0
    }
}

} // verus!
