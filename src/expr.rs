use vstd::prelude::*;

use crate::syntax::Glob;

verus! {

/// A literal piece of a glob expression, held as decoded text: escape
/// sequences are already resolved, so it may hold any character.
#[derive(Clone, Debug)]
pub struct Literal {
    pub text: String,
}

/// A brace group `prefix{alt,alt,...}suffix`.
#[derive(Debug)]
pub struct GlobGroup {
    pub prefix: Literal,
    pub children: Vec<GlobExpr>,
    pub suffix: GlobExpr,
}

#[derive(Debug)]
pub enum GlobExprKind {
    Literal(Literal),
    Group(Box<GlobGroup>),
}

/// A glob expansion expression.
#[derive(Debug)]
pub struct GlobExpr {
    pub kind: GlobExprKind,
}

impl View for Literal {
    type V = Seq<char>;

    open spec fn view(&self) -> Seq<char> {
        self.text@
    }
}

impl GlobExpr {
    pub open spec fn view(&self) -> Glob
        decreases self,
    {
        match self.kind {
            GlobExprKind::Literal(l) => Glob::Lit(l.text@),
            GlobExprKind::Group(g) => Glob::Group(
                g.prefix.text@,
                views_of(g.children@),
                Box::new(g.suffix.view()),
            ),
        }
    }
}

/// The models of a sequence of expressions, one for one.
pub open spec fn views_of(cs: Seq<GlobExpr>) -> Seq<Glob>
    decreases cs,
{
    if cs.len() == 0 {
        seq![]
    } else {
        views_of(cs.drop_last()).push(cs.last().view())
    }
}

pub proof fn lemma_views_of(cs: Seq<GlobExpr>)
    ensures
        views_of(cs).len() == cs.len(),
        forall|i: int| 0 <= i < cs.len() ==> #[trigger] views_of(cs)[i] == cs[i].view(),
    decreases cs.len(),
{
    if cs.len() > 0 {
        lemma_views_of(cs.drop_last());
    }
}

impl GlobGroup {
    pub open spec fn view(&self) -> Glob {
        Glob::Group(self.prefix@, views_of(self.children@), Box::new(self.suffix.view()))
    }

    /// Wraps this group as an expression.
    pub fn into_expr(self) -> (r: GlobExpr)
        ensures
            r.view() == self.view(),
    {
        GlobExpr { kind: GlobExprKind::Group(Box::new(self)) }
    }
}

impl Literal {
    /// A literal with exactly this text: special characters in it are
    /// taken as they are, not as syntax.
    pub fn from_text(text: String) -> (r: Literal)
        ensures
            r@ == text@,
    {
        Literal { text }
    }

    /// The decoded text, with escape sequences resolved.
    pub fn text(&self) -> (r: &str)
        ensures
            r@ == self@,
    {
        self.text.as_str()
    }

    /// Wraps this literal as an expression.
    pub fn into_expr(self) -> (r: GlobExpr)
        ensures
            r.view() == Glob::Lit(self@),
    {
        GlobExpr { kind: GlobExprKind::Literal(self) }
    }
}

} // verus!
