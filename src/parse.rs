use vstd::prelude::*;

use crate::error::{GlobParseError, LiteralParseError, ParseErrorKind};
use crate::expr::{views_of, GlobExpr, GlobGroup, Literal};
use crate::syntax::{
    char_at, is_special, lemma_parse_range, lemma_scan_literal_range, parse_alts, parse_expr,
    parse_glob, parse_literal_text, scan_literal, Glob,
};

verus! {

/// `r` with `t` put before the text it reads.
spec fn after_text(t: Seq<char>, r: Result<(Seq<char>, int), GlobParseError>) -> Result<
    (Seq<char>, int),
    GlobParseError,
> {
    match r {
        Ok((u, j)) => Ok((t + u, j)),
        Err(e) => Err(e),
    }
}

/// `r` with the alternatives `cs` put before the ones it reads.
spec fn after_alts(cs: Seq<Glob>, r: Result<(Seq<Glob>, int), GlobParseError>) -> Result<
    (Seq<Glob>, int),
    GlobParseError,
> {
    match r {
        Ok((ds, k)) => Ok((cs + ds, k)),
        Err(e) => Err(e),
    }
}

/// Whether `c` is one of the four characters with a meaning in the syntax.
pub fn is_special_char(c: char) -> (r: bool)
    ensures
        r == is_special(c),
{
    c == '{' || c == '}' || c == ',' || c == '\\'
}

fn char_at_exec(s: &str, len: usize, i: usize) -> (r: Option<char>)
    requires
        len == s@.len(),
    ensures
        r == char_at(s@, i as int),
{
    if i < len {
        Some(s.get_char(i))
    } else {
        None
    }
}

fn scan_literal_at(s: &str, len: usize, i: usize) -> (r: Result<(String, usize), GlobParseError>)
    requires
        len == s@.len(),
        i <= len,
    ensures
        match r {
            Ok((t, j)) => scan_literal(s@, i as int) == Ok::<_, GlobParseError>((t@, j as int)),
            Err(e) => scan_literal(s@, i as int) == Err::<(Seq<char>, int), _>(e),
        },
{
    let mut t = String::new();
    let mut k: usize = i;
    while k < len
        invariant
            i <= k <= len,
            len == s@.len(),
            scan_literal(s@, i as int) == after_text(t@, scan_literal(s@, k as int)),
        ensures
            i <= k <= len,
            scan_literal(s@, i as int) == after_text(t@, Ok((Seq::empty(), k as int))),
        decreases len - k,
    {
        let c = s.get_char(k);
        if c == '\\' {
            if k + 1 < len {
                let d = s.get_char(k + 1);
                if is_special_char(d) {
                    let ghost t0 = t@;
                    t.append(s.substring_char(k + 1, k + 2));
                    proof {
                        assert(s@.subrange(k + 1, k + 2) =~= seq![d]);
                        let rest = scan_literal(s@, k + 2);
                        if let Ok((u, j)) = rest {
                            assert(t0 + (seq![d] + u) =~= t@ + u);
                        }
                    }
                    k = k + 2;
                } else {
                    return Err(GlobParseError { kind: ParseErrorKind::InvalidEscape, position: k + 1, found: Some(d) });
                }
            } else {
                return Err(GlobParseError { kind: ParseErrorKind::InvalidEscape, position: k + 1, found: None });
            }
        } else if is_special_char(c) {
            assert(after_text(t@, Ok((Seq::empty(), k as int))) == after_text(t@, scan_literal(s@, k as int)));
            break;
        } else {
            let ghost t0 = t@;
            t.append(s.substring_char(k, k + 1));
            proof {
                assert(s@.subrange(k as int, k + 1) =~= seq![c]);
                let rest = scan_literal(s@, k + 1);
                if let Ok((u, j)) = rest {
                    assert(t0 + (seq![c] + u) =~= t@ + u);
                }
            }
            k = k + 1;
        }
    }
    assert(t@ + Seq::<char>::empty() =~= t@);
    Ok((t, k))
}

fn parse_expr_at(s: &str, len: usize, i: usize) -> (r: Result<(GlobExpr, usize), GlobParseError>)
    requires
        len == s@.len(),
        i <= len,
    ensures
        match r {
            Ok((e, j)) => parse_expr(s@, i as int) == Ok::<_, GlobParseError>((e.view(), j as int)),
            Err(err) => parse_expr(s@, i as int) == Err::<(Glob, int), _>(err),
        },
    decreases len - i, 0usize,
{
    proof {
        lemma_scan_literal_range(s@, i as int);
    }
    let (p, j) = match scan_literal_at(s, len, i) {
        Ok(x) => x,
        Err(e) => return Err(e),
    };
    if j < len && s.get_char(j) == '{' {
        proof {
            lemma_parse_range(s@, j + 1);
        }
        let (cs, k) = match parse_alts_at(s, len, j + 1) {
            Ok(x) => x,
            Err(e) => return Err(e),
        };
        let (suffix, m) = match parse_expr_at(s, len, k) {
            Ok(x) => x,
            Err(e) => return Err(e),
        };
        let g = GlobGroup { prefix: Literal { text: p }, children: cs, suffix };
        Ok((g.into_expr(), m))
    } else {
        Ok((Literal { text: p }.into_expr(), j))
    }
}

fn parse_alts_at(s: &str, len: usize, i: usize) -> (r: Result<(Vec<GlobExpr>, usize), GlobParseError>)
    requires
        len == s@.len(),
        i <= len,
    ensures
        match r {
            Ok((cs, k)) => parse_alts(s@, i as int) == Ok::<_, GlobParseError>((views_of(cs@), k as int)),
            Err(err) => parse_alts(s@, i as int) == Err::<(Seq<Glob>, int), _>(err),
        },
    decreases len - i, 1usize,
{
    let mut cs: Vec<GlobExpr> = Vec::new();
    let mut k: usize = i;
    assert(views_of(cs@) + Seq::<Glob>::empty() =~= Seq::<Glob>::empty());
    loop
        invariant
            i <= k <= len,
            len == s@.len(),
            parse_alts(s@, i as int) == after_alts(views_of(cs@), parse_alts(s@, k as int)),
        decreases len - k,
    {
        proof {
            lemma_parse_range(s@, k as int);
        }
        let (c, j) = match parse_expr_at(s, len, k) {
            Ok(x) => x,
            Err(e) => return Err(e),
        };
        let ghost vc = c.view();
        let ghost before = views_of(cs@);
        let ghost cs0 = cs@;
        if j < len && s.get_char(j) == ',' {
            cs.push(c);
            proof {
                assert(cs@.drop_last() =~= cs0);
                assert(views_of(cs@) == before.push(vc));
                if let Ok((ds, m)) = parse_alts(s@, j + 1) {
                    assert(before + (seq![vc] + ds) =~= views_of(cs@) + ds);
                }
            }
            k = j + 1;
        } else if j < len && s.get_char(j) == '}' {
            cs.push(c);
            proof {
                assert(cs@.drop_last() =~= cs0);
                assert(views_of(cs@) == before.push(vc));
                assert(before + seq![vc] =~= views_of(cs@));
            }
            return Ok((cs, j + 1));
        } else {
            let found = char_at_exec(s, len, j);
            return Err(GlobParseError { kind: ParseErrorKind::UnclosedGroup, position: j, found });
        }
    }
}

/// Parses a whole glob pattern. Fails at the first point where the
/// pattern breaks the grammar. An empty group body, as in `foo{}`, reads as
/// one empty alternative, so `foo{}` denotes the single string `foo`.
pub fn expr(text: &str) -> (r: Result<GlobExpr, GlobParseError>)
    ensures
        match r {
            Ok(e) => parse_glob(text@) == Ok::<_, GlobParseError>(e.view()),
            Err(err) => parse_glob(text@) == Err::<Glob, _>(err),
        },
{
    let len = text.unicode_len();
    let (e, j) = match parse_expr_at(text, len, 0) {
        Ok(x) => x,
        Err(err) => return Err(err),
    };
    if j == len {
        Ok(e)
    } else {
        let found = char_at_exec(text, len, j);
        Err(GlobParseError { kind: ParseErrorKind::UnexpectedChar, position: j, found })
    }
}

/// Parses a whole input as one literal: any unescaped special character
/// fails.
pub fn literal(text: &str) -> (r: Result<Literal, LiteralParseError>)
    ensures
        match r {
            Ok(l) => parse_literal_text(text@) == Ok::<_, GlobParseError>(l@),
            Err(LiteralParseError(err)) => parse_literal_text(text@) == Err::<Seq<char>, _>(err),
        },
{
    let len = text.unicode_len();
    let (t, j) = match scan_literal_at(text, len, 0) {
        Ok(x) => x,
        Err(err) => return Err(LiteralParseError(err)),
    };
    if j == len {
        Ok(Literal { text: t })
    } else {
        let found = char_at_exec(text, len, j);
        Err(LiteralParseError(GlobParseError { kind: ParseErrorKind::UnexpectedChar, position: j, found }))
    }
}

impl std::str::FromStr for GlobExpr {
    type Err = GlobParseError;

    fn from_str(text: &str) -> (r: Result<GlobExpr, GlobParseError>)
        ensures
            match r {
                Ok(e) => parse_glob(text@) == Ok::<_, GlobParseError>(e.view()),
                Err(err) => parse_glob(text@) == Err::<Glob, _>(err),
            },
    {
        expr(text)
    }
}

impl std::str::FromStr for Literal {
    type Err = LiteralParseError;

    fn from_str(text: &str) -> (r: Result<Literal, LiteralParseError>)
        ensures
            match r {
                Ok(l) => parse_literal_text(text@) == Ok::<_, GlobParseError>(l@),
                Err(LiteralParseError(err)) => parse_literal_text(text@) == Err::<Seq<char>, _>(
                    err,
                ),
            },
    {
        literal(text)
    }
}

} // verus!
