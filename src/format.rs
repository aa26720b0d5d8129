use vstd::prelude::*;

use crate::expr::{lemma_views_of, views_of, GlobExpr, GlobExprKind, Literal};
use crate::parse::is_special_char;
use crate::syntax::{
    escape_char, escaped, lemma_escaped_push, lemma_unparse_alts_push, unparse, unparse_alts,
};

verus! {

/// Appends the escaped form of `s` to `out`.
fn write_escaped(s: &str, out: &mut String)
    ensures
        final(out)@ == old(out)@ + escaped(s@),
{
    let len = s.unicode_len();
    let ghost start = out@;
    let mut i: usize = 0;
    while i < len
        invariant
            i <= len,
            len == s@.len(),
            out@ == start + escaped(s@.take(i as int)),
        decreases len - i,
    {
        let c = s.get_char(i);
        let ghost before = out@;
        if is_special_char(c) {
            proof {
                reveal_strlit("\\");
            }
            out.append("\\");
        }
        out.append(s.substring_char(i, i + 1));
        proof {
            assert(s@.subrange(i as int, i + 1) =~= seq![c]);
            assert(out@ =~= before + escape_char(c));
            lemma_escaped_push(s@.take(i as int), c);
            assert(s@.take(i + 1) =~= s@.take(i as int).push(c));
        }
        i += 1;
    }
    assert(s@.take(len as int) =~= s@);
}

impl Literal {
    pub(crate) fn write_equivalent_expr(&self, out: &mut String)
        ensures
            final(out)@ == old(out)@ + escaped(self@),
    {
        write_escaped(self.text.as_str(), out);
    }

    /// Text that parses back to a literal with this exact text.
    pub fn equivalent_expr(&self) -> (r: String)
        ensures
            r@ == escaped(self@),
    {
        let mut buffer = String::new();
        self.write_equivalent_expr(&mut buffer);
        buffer
    }

    /// Escapes the special characters of `text`, giving the syntax of a
    /// literal with exactly that text.
    pub fn escape(text: &str) -> (r: String)
        ensures
            r@ == escaped(text@),
    {
        let mut buffer = String::new();
        write_escaped(text, &mut buffer);
        buffer
    }
}

fn write_alts(children: &Vec<GlobExpr>, out: &mut String)
    ensures
        final(out)@ == old(out)@ + unparse_alts(views_of(children@)),
    decreases children,
{
    let ghost start = out@;
    let mut i: usize = 0;
    while i < children.len()
        invariant
            i <= children@.len(),
            out@ == start + unparse_alts(views_of(children@.take(i as int))),
        decreases children@.len() - i,
    {
        let ghost before = out@;
        if i > 0 {
            proof {
                reveal_strlit(",");
            }
            out.append(",");
        }
        proof {
            broadcast use vstd::std_specs::vec::axiom_vec_index_decreases;
            assert(decreases_to!(children => children[i as int]));
        }
        children[i].write_equivalent_expr(out);
        proof {
            let vs = views_of(children@.take(i as int));
            assert(children@.take(i + 1).drop_last() =~= children@.take(i as int));
            lemma_views_of(children@.take(i as int));
            lemma_unparse_alts_push(vs, children@[i as int].view());
            if i > 0 {
                assert(out@ =~= start + (unparse_alts(vs) + seq![','] + unparse(
                    children@[i as int].view(),
                )));
            } else {
                assert(out@ =~= start + unparse(children@[i as int].view()));
            }
        }
        i += 1;
    }
    assert(children@.take(children@.len() as int) =~= children@);
}

impl GlobExpr {
    pub(crate) fn write_equivalent_expr(&self, buffer: &mut String)
        ensures
            final(buffer)@ == old(buffer)@ + unparse(self.view()),
        decreases self,
    {
        match &self.kind {
            GlobExprKind::Literal(l) => l.write_equivalent_expr(buffer),
            GlobExprKind::Group(g) => {
                let ghost start = buffer@;
                g.prefix.write_equivalent_expr(buffer);
                proof {
                    reveal_strlit("{");
                    reveal_strlit("}");
                }
                buffer.append("{");
                write_alts(&g.children, buffer);
                buffer.append("}");
                g.suffix.write_equivalent_expr(buffer);
                assert(buffer@ =~= start + unparse(self.view()));
            },
        }
    }

    /// Syntax that parses back to an expression with the same expansions.
    pub fn equivalent_expr(&self) -> (r: String)
        ensures
            r@ == unparse(self.view()),
    {
        let mut buffer = String::new();
        self.write_equivalent_expr(&mut buffer);
        buffer
    }
}

} // verus!
