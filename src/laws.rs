use vstd::prelude::*;

use crate::expand::{alt_expansions, cross, expansions};
use crate::syntax::{
    escape_char, escaped, is_special, lemma_parse_range, parse_alts, parse_expr, parse_glob,
    parse_literal_text, scan_literal, unparse, unparse_alts, Glob,
};

verus! {

/// The number of strings that the alternatives denote together.
pub open spec fn sum_counts(cs: Seq<Glob>) -> nat
    decreases cs.len(),
{
    if cs.len() == 0 {
        0
    } else {
        sum_counts(cs.drop_last()) + expansions(cs.last()).len()
    }
}

proof fn lemma_alt_count(cs: Seq<Glob>)
    ensures
        alt_expansions(cs).len() == sum_counts(cs),
    decreases cs.len(),
{
    if cs.len() > 0 {
        lemma_alt_count(cs.drop_last());
    }
}

pub(crate) proof fn lemma_cross_count(p: Seq<char>, xs: Seq<Seq<char>>, ss: Seq<Seq<char>>)
    ensures
        cross(p, xs, ss).len() == xs.len() * ss.len(),
    decreases xs.len(),
{
    if xs.len() > 0 {
        lemma_cross_count(p, xs.drop_last(), ss);
        let n = xs.len();
        let m = ss.len();
        assert((n - 1) * m + m == n * m) by (nonlinear_arith);
    }
}

/// A literal denotes one string; a group denotes as many strings as its
/// alternatives do together, times as many as its suffix does.
pub proof fn lemma_count_law(t: Seq<char>, p: Seq<char>, cs: Seq<Glob>, suffix: Glob)
    ensures
        expansions(Glob::Lit(t)).len() == 1,
        expansions(Glob::Group(p, cs, Box::new(suffix))).len() == sum_counts(cs) * expansions(
            suffix,
        ).len(),
{
    lemma_alt_count(cs);
    lemma_cross_count(p, alt_expansions(cs), expansions(suffix));
}

proof fn lemma_cross_index(p: Seq<char>, xs: Seq<Seq<char>>, ss: Seq<Seq<char>>, a: int, b: int)
    requires
        0 <= a < xs.len(),
        0 <= b < ss.len(),
    ensures
        a * ss.len() + b < cross(p, xs, ss).len(),
        cross(p, xs, ss)[a * ss.len() + b] == p + xs[a] + ss[b],
    decreases xs.len(),
{
    let n = xs.len() as int;
    let m = ss.len() as int;
    lemma_cross_count(p, xs, ss);
    lemma_cross_count(p, xs.drop_last(), ss);
    assert(a * m + b < n * m) by (nonlinear_arith)
        requires
            0 <= a < n,
            0 <= b < m,
    ;
    if a < n - 1 {
        lemma_cross_index(p, xs.drop_last(), ss, a, b);
    } else {
        assert((n - 1) * m + b - (n - 1) * m == b);
    }
}

/// The order of expansion: a group's string at place `a * m + b`, where `m`
/// is the number of suffix strings, is the prefix, then string `a` of its
/// alternatives taken one alternative after another in declaration order,
/// then suffix string `b`. So the suffix varies fastest, and each
/// alternative's strings come before those of the next.
pub proof fn lemma_expansion_order(p: Seq<char>, cs: Seq<Glob>, suffix: Glob, a: int, b: int)
    requires
        0 <= a < alt_expansions(cs).len(),
        0 <= b < expansions(suffix).len(),
    ensures
        a * expansions(suffix).len() + b < expansions(Glob::Group(p, cs, Box::new(suffix))).len(),
        expansions(Glob::Group(p, cs, Box::new(suffix)))[a * expansions(suffix).len() + b] == p
            + alt_expansions(cs)[a] + expansions(suffix)[b],
{
    lemma_cross_index(p, alt_expansions(cs), expansions(suffix), a, b);
}

/// The place `k` of a group's expansion holds alternative string `k / m`
/// and suffix string `k % m`, where `m` is the number of suffix strings.
pub(crate) proof fn lemma_place(p: Seq<char>, cs: Seq<Glob>, suffix: Glob, k: int)
    requires
        0 <= k < expansions(Glob::Group(p, cs, Box::new(suffix))).len(),
    ensures
        expansions(suffix).len() > 0,
        0 <= k / (expansions(suffix).len() as int) < alt_expansions(cs).len(),
        0 <= k % expansions(suffix).len() as int,
        k % (expansions(suffix).len() as int) < expansions(suffix).len(),
        expansions(Glob::Group(p, cs, Box::new(suffix)))[k] == p + alt_expansions(cs)[k
            / expansions(suffix).len() as int] + expansions(suffix)[k % expansions(
            suffix,
        ).len() as int],
{
    let n = alt_expansions(cs).len() as int;
    let m = expansions(suffix).len() as int;
    lemma_cross_count(p, alt_expansions(cs), expansions(suffix));
    assert(m > 0) by (nonlinear_arith)
        requires
            0 <= k < n * m,
            0 <= n,
            0 <= m,
    ;
    vstd::arithmetic::div_mod::lemma_fundamental_div_mod(k, m);
    vstd::arithmetic::div_mod::lemma_div_pos_is_pos(k, m);
    vstd::arithmetic::div_mod::lemma_multiply_divide_lt(k, m, n);
    assert(m * n == n * m) by (nonlinear_arith);
    assert(0 <= k % m < m);
    assert(k == (k / m) * m + k % m) by (nonlinear_arith)
        requires
            k == m * (k / m) + (k % m),
    ;
    lemma_cross_index(p, alt_expansions(cs), expansions(suffix), k / m, k % m);
}

/// Every place of a group's expansion holds exactly one choice of an
/// alternative string and a suffix string: the one at place `k` is the
/// prefix, alternative string `k / m` and suffix string `k % m`, where `m`
/// is the number of suffix strings; and two different choices stand at two
/// different places. So no choice is left out and none comes twice.
pub proof fn lemma_each_choice_once(
    p: Seq<char>,
    cs: Seq<Glob>,
    suffix: Glob,
    k: int,
    a1: int,
    b1: int,
    a2: int,
    b2: int,
)
    requires
        0 <= k < expansions(Glob::Group(p, cs, Box::new(suffix))).len(),
        0 <= a1 < alt_expansions(cs).len(),
        0 <= a2 < alt_expansions(cs).len(),
        0 <= b1 < expansions(suffix).len(),
        0 <= b2 < expansions(suffix).len(),
    ensures
        expansions(Glob::Group(p, cs, Box::new(suffix)))[k] == p + alt_expansions(cs)[k
            / expansions(suffix).len() as int] + expansions(suffix)[k % expansions(
            suffix,
        ).len() as int],
        (a1, b1) != (a2, b2) ==> a1 * expansions(suffix).len() + b1 != a2 * expansions(
            suffix,
        ).len() + b2,
{
    let m = expansions(suffix).len() as int;
    lemma_place(p, cs, suffix, k);
    if (a1, b1) != (a2, b2) {
        assert(a1 * m + b1 != a2 * m + b2) by (nonlinear_arith)
            requires
                0 <= b1 < m,
                0 <= b2 < m,
                a1 != a2 || b1 != b2,
        ;
    }
}

/// The strings of the alternatives come one alternative after another, in
/// declaration order: those of the last follow those of the others.
pub proof fn lemma_alternatives_in_order(cs: Seq<Glob>, c: Glob)
    ensures
        alt_expansions(cs.push(c)) == alt_expansions(cs) + expansions(c),
{
    assert(cs.push(c).drop_last() =~= cs);
}

proof fn lemma_subrange_split(s: Seq<char>, i: int, x: Seq<char>, y: Seq<char>)
    requires
        0 <= i,
        i + x.len() + y.len() <= s.len(),
        s.subrange(i, i + x.len() + y.len()) == x + y,
    ensures
        s.subrange(i, i + x.len()) == x,
        s.subrange(i + x.len(), i + x.len() + y.len()) == y,
{
    assert forall|k: int| 0 <= k < x.len() implies s.subrange(i, i + x.len())[k] == x[k] by {
        assert(s.subrange(i, i + x.len() + y.len())[k] == (x + y)[k]);
    }
    assert forall|k: int| 0 <= k < y.len() implies s.subrange(
        i + x.len(),
        i + x.len() + y.len(),
    )[k] == y[k] by {
        assert(s.subrange(i, i + x.len() + y.len())[x.len() + k] == (x + y)[x.len() + k]);
        assert(s.subrange(i, i + x.len() + y.len())[x.len() + k] == s[i + x.len() + k]);
        assert(s.subrange(i + x.len(), i + x.len() + y.len())[k] == s[i + x.len() + k]);
    }
    assert(s.subrange(i, i + x.len()) =~= x);
    assert(s.subrange(i + x.len(), i + x.len() + y.len()) =~= y);
}

/// Escaped text reads back as exactly that text, up to a following
/// special character other than a backslash.
proof fn lemma_scan_escaped(s: Seq<char>, i: int, t: Seq<char>)
    requires
        0 <= i,
        i + escaped(t).len() <= s.len(),
        s.subrange(i, i + escaped(t).len()) == escaped(t),
        i + escaped(t).len() == s.len() || (is_special(s[i + escaped(t).len()]) && s[i
            + escaped(t).len()] != '\\'),
    ensures
        scan_literal(s, i) == Ok::<_, crate::error::GlobParseError>((t, i + escaped(t).len())),
    decreases t.len(),
{
    if t.len() == 0 {
        assert(t =~= Seq::<char>::empty());
    } else {
        let c = t[0];
        let rest = t.drop_first();
        let e = escape_char(c);
        lemma_subrange_split(s, i, e, escaped(rest));
        assert(s.subrange(i, i + e.len())[0] == s[i]);
        lemma_scan_escaped(s, i + e.len(), rest);
        if is_special(c) {
            assert(s.subrange(i, i + e.len())[1] == s[i + 1]);
        }
        assert(seq![c] + rest =~= t);
    }
}

/// Escaping any text gives syntax that parses back to a single literal with
/// exactly that text, both as a literal and as a whole pattern.
pub proof fn lemma_escape_parses(t: Seq<char>)
    ensures
        parse_literal_text(escaped(t)) == Ok::<_, crate::error::GlobParseError>(t),
        parse_glob(escaped(t)) == Ok::<_, crate::error::GlobParseError>(Glob::Lit(t)),
{
    let s = escaped(t);
    assert(s.subrange(0, s.len() as int) =~= s);
    lemma_scan_escaped(s, 0, t);
}

/// Every group, at any depth, has at least one alternative: true of each
/// expression the parser gives.
pub open spec fn well_formed(g: Glob) -> bool
    decreases g,
{
    match g {
        Glob::Lit(_) => true,
        Glob::Group(_, cs, suffix) => cs.len() > 0 && all_well_formed(cs) && well_formed(*suffix),
    }
}

pub open spec fn all_well_formed(cs: Seq<Glob>) -> bool
    decreases cs,
{
    if cs.len() == 0 {
        true
    } else {
        well_formed(cs[0]) && all_well_formed(cs.drop_first())
    }
}

proof fn lemma_parse_well_formed(s: Seq<char>, i: int)
    requires
        0 <= i <= s.len(),
    ensures
        parse_expr(s, i) matches Ok((g, _)) ==> well_formed(g),
        parse_alts(s, i) matches Ok((cs, _)) ==> cs.len() > 0 && all_well_formed(cs),
    decreases s.len() - i,
{
    lemma_parse_range(s, i);
    crate::syntax::lemma_scan_literal_range(s, i);
    if let Ok((p, j)) = scan_literal(s, i) {
        if i <= j < s.len() && s[j] == '{' {
            lemma_parse_well_formed(s, j + 1);
            lemma_parse_range(s, j + 1);
            if let Ok((cs, k)) = parse_alts(s, j + 1) {
                if j < k <= s.len() {
                    lemma_parse_well_formed(s, k);
                }
            }
        }
    }
    if let Ok((c, j)) = parse_expr(s, i) {
        assert(well_formed(c));
        if i <= j < s.len() && s[j] == ',' {
            lemma_parse_well_formed(s, j + 1);
            if let Ok((cs, k)) = parse_alts(s, j + 1) {
                assert((seq![c] + cs).drop_first() =~= cs);
                assert((seq![c] + cs)[0] == c);
                assert(all_well_formed(seq![c] + cs));
            }
        } else if i <= j < s.len() && s[j] == '}' {
            assert(seq![c].drop_first() =~= Seq::<Glob>::empty());
            assert(seq![c][0] == c);
            assert(all_well_formed(Seq::<Glob>::empty()));
            assert(all_well_formed(seq![c]));
        }
    }
}

proof fn lemma_parse_unparse(s: Seq<char>, i: int, g: Glob)
    requires
        well_formed(g),
        0 <= i,
        i + unparse(g).len() <= s.len(),
        s.subrange(i, i + unparse(g).len()) == unparse(g),
        i + unparse(g).len() == s.len() || s[i + unparse(g).len()] == ',' || s[i + unparse(
            g,
        ).len()] == '}',
    ensures
        parse_expr(s, i) == Ok::<_, crate::error::GlobParseError>((g, i + unparse(g).len())),
    decreases g,
{
    match g {
        Glob::Lit(t) => {
            lemma_scan_escaped(s, i, t);
        },
        Glob::Group(p, cs, suffix) => {
            let ep = escaped(p);
            let ua = unparse_alts(cs);
            let us = unparse(*suffix);
            let head = ep + seq!['{'] + ua + seq!['}'];
            assert(unparse(g) == head + us);
            lemma_subrange_split(s, i, head, us);
            lemma_subrange_split(s, i, ep + seq!['{'] + ua, seq!['}']);
            lemma_subrange_split(s, i, ep + seq!['{'], ua);
            lemma_subrange_split(s, i, ep, seq!['{']);
            let j = i + ep.len();
            assert(s.subrange(j, j + 1)[0] == s[j]);
            lemma_scan_escaped(s, i, p);
            let k0 = j + 1;
            assert(s.subrange(k0 + ua.len(), k0 + ua.len() + 1)[0] == s[k0 + ua.len()]);
            lemma_parse_unparse_alts(s, k0, cs);
            let k = k0 + ua.len() + 1;
            lemma_parse_unparse(s, k, *suffix);
        },
    }
}

proof fn lemma_parse_unparse_alts(s: Seq<char>, i: int, cs: Seq<Glob>)
    requires
        cs.len() > 0,
        all_well_formed(cs),
        0 <= i,
        i + unparse_alts(cs).len() < s.len(),
        s.subrange(i, i + unparse_alts(cs).len()) == unparse_alts(cs),
        s[i + unparse_alts(cs).len()] == '}',
    ensures
        parse_alts(s, i) == Ok::<_, crate::error::GlobParseError>(
            (cs, i + unparse_alts(cs).len() + 1),
        ),
    decreases cs,
{
    let c = cs[0];
    let uc = unparse(c);
    if cs.len() == 1 {
        lemma_parse_unparse(s, i, c);
        assert(seq![c] =~= cs);
    } else {
        let rest = cs.drop_first();
        let ur = unparse_alts(rest);
        assert(unparse_alts(cs) == uc + seq![','] + ur);
        lemma_subrange_split(s, i, uc + seq![','], ur);
        lemma_subrange_split(s, i, uc, seq![',']);
        assert(s.subrange(i + uc.len(), i + uc.len() + 1)[0] == s[i + uc.len()]);
        lemma_parse_unparse(s, i, c);
        lemma_parse_unparse_alts(s, i + uc.len() + 1, rest);
        assert(seq![c] + rest =~= cs);
    }
}

/// Formatting a parsed pattern and parsing the result again gives the same
/// expression, and so the same expansions, though the text may differ from
/// the pattern.
pub proof fn lemma_round_trip(s: Seq<char>)
    requires
        parse_glob(s) is Ok,
    ensures
        parse_glob(unparse(parse_glob(s)->Ok_0)) == parse_glob(s),
        expansions(parse_glob(unparse(parse_glob(s)->Ok_0))->Ok_0) == expansions(
            parse_glob(s)->Ok_0,
        ),
{
    let g = parse_glob(s)->Ok_0;
    lemma_parse_well_formed(s, 0);
    let u = unparse(g);
    assert(u.subrange(0, u.len() as int) =~= u);
    lemma_parse_unparse(u, 0, g);
}

} // verus!
