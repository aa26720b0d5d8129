use vstd::prelude::*;

use crate::error::{GlobParseError, ParseErrorKind};

verus! {

/// The mathematical form of a glob expression.
pub enum Glob {
    Lit(Seq<char>),
    Group(Seq<char>, Seq<Glob>, Box<Glob>),
}

/// The four characters with a meaning in the pattern syntax.
pub open spec fn is_special(c: char) -> bool {
    c == '{' || c == '}' || c == ',' || c == '\\'
}

/// The character at `i`, or `None` past the end.
pub open spec fn char_at(s: Seq<char>, i: int) -> Option<char> {
    if 0 <= i < s.len() {
        Some(s[i])
    } else {
        None
    }
}

/// A failure of the given kind at position `i`.
pub open spec fn error_at(kind: ParseErrorKind, s: Seq<char>, i: int) -> GlobParseError {
    GlobParseError { kind, position: i as usize, found: char_at(s, i) }
}

/// Reads the longest literal starting at `i`: plain characters and escape
/// sequences, up to an unescaped special character or the end. Gives the
/// decoded text and the position after it.
pub open spec fn scan_literal(s: Seq<char>, i: int) -> Result<(Seq<char>, int), GlobParseError>
    decreases s.len() - i,
{
    if i < 0 || i >= s.len() {
        Ok((seq![], i))
    } else if s[i] == '\\' {
        if i + 1 < s.len() && is_special(s[i + 1]) {
            match scan_literal(s, i + 2) {
                Ok((t, j)) => Ok((seq![s[i + 1]] + t, j)),
                Err(e) => Err(e),
            }
        } else {
            Err(error_at(ParseErrorKind::InvalidEscape, s, i + 1))
        }
    } else if is_special(s[i]) {
        Ok((seq![], i))
    } else {
        match scan_literal(s, i + 1) {
            Ok((t, j)) => Ok((seq![s[i]] + t, j)),
            Err(e) => Err(e),
        }
    }
}

/// Reads one expression starting at `i`: a literal, and if a `{` follows it,
/// the group's alternatives and then the suffix expression.
pub open spec fn parse_expr(s: Seq<char>, i: int) -> Result<(Glob, int), GlobParseError>
    decreases s.len() - i, 0int,
{
    match scan_literal(s, i) {
        Err(e) => Err(e),
        Ok((p, j)) => {
            if i <= j < s.len() && s[j] == '{' {
                match parse_alts(s, j + 1) {
                    Err(e) => Err(e),
                    Ok((cs, k)) => {
                        if j < k <= s.len() {
                            match parse_expr(s, k) {
                                Err(e) => Err(e),
                                Ok((suffix, m)) => Ok((Glob::Group(p, cs, Box::new(suffix)), m)),
                            }
                        } else {
                            // never taken: the alternatives end after their start
                            Ok((Glob::Lit(p), j))
                        }
                    },
                }
            } else {
                Ok((Glob::Lit(p), j))
            }
        },
    }
}

/// Reads the comma-separated alternatives of a group and its closing `}`.
pub open spec fn parse_alts(s: Seq<char>, i: int) -> Result<(Seq<Glob>, int), GlobParseError>
    decreases s.len() - i, 1int,
{
    match parse_expr(s, i) {
        Err(e) => Err(e),
        Ok((c, j)) => {
            if i <= j < s.len() && s[j] == ',' {
                match parse_alts(s, j + 1) {
                    Err(e) => Err(e),
                    Ok((cs, k)) => Ok((seq![c] + cs, k)),
                }
            } else if i <= j < s.len() && s[j] == '}' {
                Ok((seq![c], j + 1))
            } else {
                Err(error_at(ParseErrorKind::UnclosedGroup, s, j))
            }
        },
    }
}

/// A whole pattern: one expression that reaches the end of the input.
pub open spec fn parse_glob(s: Seq<char>) -> Result<Glob, GlobParseError> {
    match parse_expr(s, 0) {
        Err(e) => Err(e),
        Ok((g, j)) => if j == s.len() {
            Ok(g)
        } else {
            Err(error_at(ParseErrorKind::UnexpectedChar, s, j))
        },
    }
}

/// A whole input read as one literal.
pub open spec fn parse_literal_text(s: Seq<char>) -> Result<Seq<char>, GlobParseError> {
    match scan_literal(s, 0) {
        Err(e) => Err(e),
        Ok((t, j)) => if j == s.len() {
            Ok(t)
        } else {
            Err(error_at(ParseErrorKind::UnexpectedChar, s, j))
        },
    }
}

/// One character as the syntax writes it: a special one after a backslash.
pub open spec fn escape_char(c: char) -> Seq<char> {
    if is_special(c) {
        seq!['\\', c]
    } else {
        seq![c]
    }
}

/// Text written so that it reads back as a literal of exactly that text.
pub open spec fn escaped(t: Seq<char>) -> Seq<char>
    decreases t.len(),
{
    if t.len() == 0 {
        seq![]
    } else {
        escape_char(t[0]) + escaped(t.drop_first())
    }
}

/// The syntax of an expression: escaped literals, and for a group its
/// prefix, the alternatives between braces joined by commas, and the suffix.
pub open spec fn unparse(g: Glob) -> Seq<char>
    decreases g,
{
    match g {
        Glob::Lit(t) => escaped(t),
        Glob::Group(p, cs, suffix) => escaped(p) + seq!['{'] + unparse_alts(cs) + seq!['}']
            + unparse(*suffix),
    }
}

/// Alternatives joined by commas.
pub open spec fn unparse_alts(cs: Seq<Glob>) -> Seq<char>
    decreases cs,
{
    if cs.len() == 0 {
        seq![]
    } else if cs.len() == 1 {
        unparse(cs[0])
    } else {
        unparse(cs[0]) + seq![','] + unparse_alts(cs.drop_first())
    }
}

pub proof fn lemma_escaped_append(a: Seq<char>, b: Seq<char>)
    ensures
        escaped(a + b) == escaped(a) + escaped(b),
    decreases a.len(),
{
    if a.len() == 0 {
        assert(a + b =~= b);
    } else {
        lemma_escaped_append(a.drop_first(), b);
        assert((a + b).drop_first() =~= a.drop_first() + b);
    }
}

pub proof fn lemma_escaped_push(a: Seq<char>, c: char)
    ensures
        escaped(a.push(c)) == escaped(a) + escape_char(c),
{
    lemma_escaped_append(a, seq![c]);
    assert(a.push(c) =~= a + seq![c]);
    assert(seq![c].drop_first() =~= Seq::<char>::empty());
    assert(seq![c][0] == c);
    assert(escaped(Seq::<char>::empty()) == Seq::<char>::empty());
    assert(escaped(seq![c]) =~= escape_char(c));
}

pub proof fn lemma_unparse_alts_push(a: Seq<Glob>, g: Glob)
    ensures
        unparse_alts(a.push(g)) == if a.len() == 0 {
            unparse(g)
        } else {
            unparse_alts(a) + seq![','] + unparse(g)
        },
    decreases a.len(),
{
    let b = a.push(g);
    if a.len() == 0 {
        assert(b[0] == g);
    } else if a.len() == 1 {
        assert(b.drop_first() =~= seq![g]);
        assert(b[0] == a[0]);
        assert(unparse_alts(seq![g]) == unparse(g));
    } else {
        lemma_unparse_alts_push(a.drop_first(), g);
        assert(b.drop_first() =~= a.drop_first().push(g));
        assert(b[0] == a[0]);
        assert(unparse_alts(b) =~= unparse_alts(a) + seq![','] + unparse(g));
    }
}

pub proof fn lemma_scan_literal_range(s: Seq<char>, i: int)
    requires
        0 <= i <= s.len(),
    ensures
        scan_literal(s, i) matches Ok((_, j)) ==> i <= j <= s.len(),
        scan_literal(s, i) matches Ok((_, j)) ==> j == s.len() || is_special(s[j]),
    decreases s.len() - i,
{
    if i < s.len() {
        if s[i] == '\\' {
            if i + 1 < s.len() && is_special(s[i + 1]) {
                lemma_scan_literal_range(s, i + 2);
            }
        } else if !is_special(s[i]) {
            lemma_scan_literal_range(s, i + 1);
        }
    }
}

pub proof fn lemma_parse_range(s: Seq<char>, i: int)
    requires
        0 <= i <= s.len(),
    ensures
        parse_expr(s, i) matches Ok((_, j)) ==> i <= j <= s.len(),
        parse_alts(s, i) matches Ok((_, k)) ==> i < k <= s.len(),
    decreases s.len() - i,
{
    lemma_scan_literal_range(s, i);
    if let Ok((p, j)) = scan_literal(s, i) {
        if i <= j < s.len() && s[j] == '{' {
            lemma_parse_range(s, j + 1);
            if let Ok((cs, k)) = parse_alts(s, j + 1) {
                lemma_parse_range(s, k);
            }
        }
    }
    if let Ok((c, j)) = parse_expr(s, i) {
        if i <= j < s.len() && s[j] == ',' {
            lemma_parse_range(s, j + 1);
        }
    }
}

} // verus!
