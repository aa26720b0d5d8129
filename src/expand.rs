use vstd::prelude::*;

use crate::expr::{views_of, GlobExpr, GlobExprKind, lemma_views_of};
use crate::laws::{lemma_cross_count, lemma_place};
use crate::syntax::Glob;

verus! {

/// Every string that `g` denotes, in order: a literal denotes its text; a
/// group denotes, for each alternative in turn and each of that
/// alternative's strings, each string of the suffix, all after the prefix.
pub open spec fn expansions(g: Glob) -> Seq<Seq<char>>
    decreases g,
{
    match g {
        Glob::Lit(t) => seq![t],
        Glob::Group(p, cs, suffix) => cross(p, alt_expansions(cs), expansions(*suffix)),
    }
}

/// The strings of the alternatives, one alternative after another.
pub open spec fn alt_expansions(cs: Seq<Glob>) -> Seq<Seq<char>>
    decreases cs,
{
    if cs.len() == 0 {
        seq![]
    } else {
        alt_expansions(cs.drop_last()) + expansions(cs.last())
    }
}

/// `p + x + s` for each `x` of `xs` and, within it, each `s` of `ss`.
pub open spec fn cross(p: Seq<char>, xs: Seq<Seq<char>>, ss: Seq<Seq<char>>) -> Seq<Seq<char>>
    decreases xs.len(),
{
    if xs.len() == 0 {
        seq![]
    } else {
        cross(p, xs.drop_last(), ss) + ss.map_values(|s: Seq<char>| p + xs.last() + s)
    }
}

/// The texts of a sequence of strings.
pub open spec fn texts(v: Seq<String>) -> Seq<Seq<char>> {
    v.map_values(|s: String| s@)
}

proof fn lemma_texts_append(a: Seq<String>, b: Seq<String>)
    ensures
        texts(a + b) == texts(a) + texts(b),
{
    assert(texts(a + b) =~= texts(a) + texts(b));
}

proof fn lemma_texts_push(a: Seq<String>, x: String)
    ensures
        texts(a.push(x)) == texts(a).push(x@),
{
    assert(texts(a.push(x)) =~= texts(a).push(x@));
}

proof fn lemma_views_take(cs: Seq<GlobExpr>, i: int)
    requires
        0 <= i < cs.len(),
    ensures
        views_of(cs.take(i + 1)) == views_of(cs.take(i)).push(cs[i].view()),
{
    assert(cs.take(i + 1).drop_last() =~= cs.take(i));
}

/// Concatenates the prefix, one alternative string and each suffix string.
fn cross_one(out: &mut Vec<String>, prefix: &String, x: &String, sufs: &Vec<String>)
    ensures
        texts(final(out)@) == texts(old(out)@) + texts(sufs@).map_values(
            |s: Seq<char>| prefix@ + x@ + s,
        ),
{
    let ghost start = texts(out@);
    let mut b: usize = 0;
    while b < sufs.len()
        invariant
            b <= sufs@.len(),
            texts(out@) == start + texts(sufs@).take(b as int).map_values(
                |s: Seq<char>| prefix@ + x@ + s,
            ),
        decreases sufs@.len() - b,
    {
        let mut t = prefix.clone();
        t.append(x.as_str());
        t.append(sufs[b].as_str());
        proof {
            lemma_texts_push(out@, t);
            assert(texts(sufs@).take(b + 1).map_values(|s: Seq<char>| prefix@ + x@ + s)
                =~= texts(sufs@).take(b as int).map_values(|s: Seq<char>| prefix@ + x@ + s).push(t@));
        }
        out.push(t);
        b += 1;
    }
    assert(texts(sufs@).take(sufs@.len() as int) =~= texts(sufs@));
}

/// The prefix, then each alternative string crossed with each suffix string.
fn cross_all(prefix: &String, flat: &Vec<String>, sufs: &Vec<String>) -> (r: Vec<String>)
    ensures
        texts(r@) == cross(prefix@, texts(flat@), texts(sufs@)),
{
    let mut out: Vec<String> = Vec::new();
    let mut a: usize = 0;
    while a < flat.len()
        invariant
            a <= flat@.len(),
            texts(out@) == cross(prefix@, texts(flat@).take(a as int), texts(sufs@)),
        decreases flat@.len() - a,
    {
        cross_one(&mut out, prefix, &flat[a], sufs);
        assert(texts(flat@).take(a + 1).drop_last() =~= texts(flat@).take(a as int));
        a += 1;
    }
    assert(texts(flat@).take(flat@.len() as int) =~= texts(flat@));
    out
}

/// The strings of each alternative in turn.
fn expand_alts(children: &Vec<GlobExpr>) -> (r: Vec<String>)
    ensures
        texts(r@) == alt_expansions(views_of(children@)),
    decreases children,
{
    let mut flat: Vec<String> = Vec::new();
    let mut i: usize = 0;
    while i < children.len()
        invariant
            i <= children@.len(),
            texts(flat@) == alt_expansions(views_of(children@.take(i as int))),
        decreases children@.len() - i,
    {
        proof {
            broadcast use vstd::std_specs::vec::axiom_vec_index_decreases;
            assert(decreases_to!(children => children[i as int]));
        }
        let mut xs = children[i].expand_all();
        proof {
            lemma_texts_append(flat@, xs@);
            lemma_views_take(children@, i as int);
            let vs = views_of(children@.take(i + 1));
            assert(vs.drop_last() =~= views_of(children@.take(i as int)));
        }
        flat.append(&mut xs);
        i += 1;
    }
    assert(children@.take(children@.len() as int) =~= children@);
    flat
}

proof fn lemma_alt_split(cs: Seq<Glob>, i: int)
    requires
        0 <= i <= cs.len(),
    ensures
        alt_expansions(cs) == alt_expansions(cs.take(i)) + alt_expansions(cs.skip(i)),
    decreases cs.len(),
{
    if i == cs.len() {
        assert(cs.take(i) =~= cs);
        assert(cs.skip(i) =~= Seq::<Glob>::empty());
        assert(alt_expansions(cs) + Seq::<Seq<char>>::empty() =~= alt_expansions(cs));
    } else {
        let dl = cs.drop_last();
        lemma_alt_split(dl, i);
        assert(dl.take(i) =~= cs.take(i));
        assert(cs.skip(i).drop_last() =~= dl.skip(i));
        assert(cs.skip(i).last() == cs.last());
        assert(alt_expansions(cs) =~= alt_expansions(cs.take(i)) + alt_expansions(cs.skip(i)));
    }
}

proof fn lemma_alt_step(vs: Seq<Glob>, j: int)
    requires
        0 <= j < vs.len(),
    ensures
        alt_expansions(vs.take(j + 1)) == alt_expansions(vs.take(j)) + expansions(vs[j]),
        alt_expansions(vs) == alt_expansions(vs.take(j)) + expansions(vs[j]) + alt_expansions(
            vs.skip(j + 1),
        ),
{
    assert(vs.take(j + 1).drop_last() =~= vs.take(j));
    lemma_alt_split(vs, j + 1);
}

/// The number of strings that the alternatives denote together, or `None`
/// where it exceeds `usize::MAX`.
fn count_alts(children: &Vec<GlobExpr>) -> (r: Option<usize>)
    ensures
        match r {
            Some(n) => n == alt_expansions(views_of(children@)).len(),
            None => alt_expansions(views_of(children@)).len() > usize::MAX,
        },
    decreases children,
{
    let ghost vs = views_of(children@);
    proof {
        lemma_views_of(children@);
    }
    let mut sum: usize = 0;
    let mut j: usize = 0;
    while j < children.len()
        invariant
            j <= children@.len(),
            vs == views_of(children@),
            vs.len() == children@.len(),
            forall|i: int| 0 <= i < children@.len() ==> #[trigger] vs[i] == children@[i].view(),
            sum == alt_expansions(vs.take(j as int)).len(),
        decreases children@.len() - j,
    {
        proof {
            broadcast use vstd::std_specs::vec::axiom_vec_index_decreases;
            assert(decreases_to!(children => children[j as int]));
            lemma_alt_step(vs, j as int);
        }
        let c = match children[j].count() {
            Some(c) => c,
            None => return None,
        };
        sum = match sum.checked_add(c) {
            Some(t) => t,
            None => return None,
        };
        j += 1;
    }
    assert(vs.take(vs.len() as int) =~= vs);
    Some(sum)
}

/// Alternative string `a`, the alternatives taken one after another.
fn nth_alt(children: &Vec<GlobExpr>, a: usize) -> (r: String)
    requires
        a < alt_expansions(views_of(children@)).len(),
    ensures
        r@ == alt_expansions(views_of(children@))[a as int],
    decreases children,
{
    let ghost vs = views_of(children@);
    proof {
        lemma_views_of(children@);
        assert(vs.take(0) =~= Seq::<Glob>::empty());
    }
    let len = children.len();
    let mut cum: usize = 0;
    let mut j: usize = 0;
    loop
        invariant
            j < children@.len(),
            len == children@.len(),
            vs == views_of(children@),
            vs.len() == children@.len(),
            forall|i: int| 0 <= i < children@.len() ==> #[trigger] vs[i] == children@[i].view(),
            a < alt_expansions(vs).len(),
            cum == alt_expansions(vs.take(j as int)).len(),
            cum <= a,
        decreases children@.len() - j,
    {
        proof {
            broadcast use vstd::std_specs::vec::axiom_vec_index_decreases;
            assert(decreases_to!(children => children[j as int]));
            lemma_alt_step(vs, j as int);
        }
        let c = match children[j].count() {
            None => return children[j].nth(a - cum),
            Some(c) => c,
        };
        if a - cum < c {
            return children[j].nth(a - cum);
        }
        cum = cum + c;
        j += 1;
        proof {
            if j == children@.len() {
                assert(vs.take(j as int) =~= vs);
            }
        }
    }
}

/// Hands out the expansions of an expression one at a time, in order,
/// working each one out only when it is asked for. Once every expansion has
/// been handed out it hands out none again. It hands out at most
/// `usize::MAX` of them.
pub struct ExpandGlobIter<'a> {
    expr: &'a GlobExpr,
    pos: usize,
    total: Option<usize>,
}

impl<'a> ExpandGlobIter<'a> {
    /// The expression whose expansions are handed out.
    pub closed spec fn source(&self) -> Glob {
        self.expr.view()
    }

    /// The number of places the iterator can hand out in all.
    pub closed spec fn limit(&self) -> int {
        match self.total {
            Some(t) => t as int,
            None => usize::MAX as int,
        }
    }

    pub closed spec fn wf(&self) -> bool {
        &&& self.pos <= self.limit()
        &&& match self.total {
            Some(t) => t == expansions(self.expr.view()).len(),
            None => expansions(self.expr.view()).len() > usize::MAX,
        }
    }

    /// The expansions not handed out yet.
    pub closed spec fn remaining(&self) -> Seq<Seq<char>> {
        expansions(self.expr.view()).subrange(self.pos as int, self.limit())
    }

    /// The next expansion, if any is left.
    pub fn next(&mut self) -> (r: Option<String>)
        requires
            old(self).wf(),
        ensures
            final(self).wf(),
            old(self).remaining().len() == 0 ==> r is None && final(self).remaining() == old(
                self,
            ).remaining(),
            old(self).remaining().len() > 0 ==> (r matches Some(t) && t@ == old(self).remaining()[0]
                && final(self).remaining() == old(self).remaining().drop_first()),
    {
        let limit = match self.total {
            Some(t) => t,
            None => usize::MAX,
        };
        if self.pos < limit {
            let t = self.expr.nth(self.pos);
            self.pos = self.pos + 1;
            assert(expansions(self.expr.view()).subrange(self.pos as int, self.limit())
                =~= expansions(self.expr.view()).subrange(self.pos - 1, self.limit()).drop_first());
            Some(t)
        } else {
            None
        }
    }

    /// The number of expansions left: exact, where it fits in `usize`.
    pub fn size_hint(&self) -> (r: (usize, Option<usize>))
        requires
            self.wf(),
        ensures
            r.0 == self.remaining().len(),
            expansions(self.source()).len() <= usize::MAX ==> r.1 == Some(r.0),
            expansions(self.source()).len() > usize::MAX ==> r.1 is None,
    {
        match self.total {
            Some(t) => (t - self.pos, Some(t - self.pos)),
            None => (usize::MAX - self.pos, None),
        }
    }
}

impl GlobExpr {
    /// The expansions of this expression, handed out one at a time.
    pub fn expand(&self) -> (r: ExpandGlobIter<'_>)
        ensures
            r.wf(),
            r.source() == self.view(),
            expansions(self.view()).len() <= usize::MAX ==> r.remaining() == expansions(
                self.view(),
            ),
            expansions(self.view()).len() > usize::MAX ==> r.remaining() == expansions(
                self.view(),
            ).take(usize::MAX as int),
    {
        let r = ExpandGlobIter { expr: self, pos: 0, total: self.count() };
        assert(expansions(self.view()).subrange(0, expansions(self.view()).len() as int)
            =~= expansions(self.view()));
        r
    }

    /// The number of strings this expression denotes, or `None` where it
    /// exceeds `usize::MAX`.
    pub fn count(&self) -> (r: Option<usize>)
        ensures
            match r {
                Some(n) => n == expansions(self.view()).len(),
                None => expansions(self.view()).len() > usize::MAX,
            },
        decreases self,
    {
        match &self.kind {
            GlobExprKind::Literal(_) => Some(1),
            GlobExprKind::Group(g) => {
                let ghost xs = alt_expansions(views_of(g.children@));
                let ghost ss = expansions(g.suffix.view());
                proof {
                    lemma_cross_count(g.prefix@, xs, ss);
                }
                let n = count_alts(&g.children);
                let m = g.suffix.count();
                let empty = match (n, m) {
                    (Some(0), _) | (_, Some(0)) => true,
                    _ => false,
                };
                if empty {
                    assert(xs.len() * ss.len() == 0) by (nonlinear_arith)
                        requires
                            xs.len() == 0 || ss.len() == 0,
                    ;
                    return Some(0);
                }
                match (n, m) {
                    (Some(n), Some(m)) => n.checked_mul(m),
                    _ => {
                        assert(xs.len() * ss.len() > usize::MAX) by (nonlinear_arith)
                            requires
                                xs.len() >= 1,
                                ss.len() >= 1,
                                xs.len() > usize::MAX || ss.len() > usize::MAX,
                        ;
                        None
                    },
                }
            },
        }
    }

    /// Expansion `k`, worked out on its own.
    pub fn nth(&self, k: usize) -> (r: String)
        requires
            k < expansions(self.view()).len(),
        ensures
            r@ == expansions(self.view())[k as int],
        decreases self,
    {
        match &self.kind {
            GlobExprKind::Literal(l) => l.text.clone(),
            GlobExprKind::Group(g) => {
                let ghost m = expansions(g.suffix.view()).len() as int;
                proof {
                    lemma_place(g.prefix@, views_of(g.children@), g.suffix.view(), k as int);
                }
                let (a, b) = match g.suffix.count() {
                    Some(m) => (k / m, k % m),
                    None => {
                        proof {
                            vstd::arithmetic::div_mod::lemma_fundamental_div_mod_converse(
                                k as int,
                                m,
                                0,
                                k as int,
                            );
                        }
                        (0, k)
                    },
                };
                let x = nth_alt(&g.children, a);
                let s = g.suffix.nth(b);
                let mut t = g.prefix.text.clone();
                t.append(x.as_str());
                t.append(s.as_str());
                t
            },
        }
    }

    /// Every string this expression denotes, in order.
    pub fn expand_all(&self) -> (r: Vec<String>)
        ensures
            texts(r@) == expansions(self.view()),
        decreases self,
    {
        match &self.kind {
            GlobExprKind::Literal(l) => {
                let mut v: Vec<String> = Vec::new();
                v.push(l.text.clone());
                assert(texts(v@) =~= seq![l.text@]);
                v
            },
            GlobExprKind::Group(g) => {
                let flat = expand_alts(&g.children);
                let sufs = g.suffix.expand_all();
                cross_all(&g.prefix.text, &flat, &sufs)
            },
        }
    }
}

} // verus!
