use vstd::prelude::*;

use crate::lexer::Evaluator;
use crate::token::{token_views, SpecToken, Token};
use crate::tree::{Expr, SpecExpr};

verus! {

/// A tree in Polish (prefix) notation: each operator before its left
/// operand, and that before its right operand.
pub open spec fn polish(e: SpecExpr) -> Seq<SpecToken>
    decreases e,
{
    match e {
        SpecExpr::Leaf(s) => seq![SpecToken::Num(s)],
        SpecExpr::Node(op, l, r) => seq![SpecToken::Op(op)] + polish(*l) + polish(*r),
    }
}

proof fn lemma_views_append(a: Seq<Token>, b: Seq<Token>)
    ensures
        token_views(a + b) == token_views(a) + token_views(b),
{
    assert(token_views(a + b) =~= token_views(a) + token_views(b));
}

/// Whether the Polish form of `se` stands in `ts` from `at` on.
spec fn form_at(ts: Seq<SpecToken>, at: int, se: SpecExpr) -> bool {
    at + polish(se).len() <= ts.len() && polish(se) == ts.subrange(at, at + polish(se).len())
}

/// Reads one tree in Polish notation from `pos` on, and gives it with the
/// position after it. Where the tokens from `pos` on begin with the Polish
/// form of a tree, that tree is the one read.
fn read_polish(tokens: &Vec<Token>, pos: usize) -> (r: Option<(Expr, usize)>)
    requires
        pos <= tokens.len(),
    ensures
        ({
            let ts = token_views(tokens@);
            &&& r matches Some((e, next)) ==> pos < next <= ts.len() && ts.subrange(
                pos as int,
                next as int,
            ) == polish(e@)
            &&& forall|se: SpecExpr| #[trigger]
                form_at(ts, pos as int, se) ==> (r matches Some((e, next)) && e@ == se)
        }),
    decreases tokens.len() - pos,
{
    let ghost ts = token_views(tokens@);
    if pos >= tokens.len() {
        return None;
    }
    match &tokens[pos] {
        Token::Value(s) => {
            let e = Expr::Leaf(s.clone());
            proof {
                assert(ts.subrange(pos as int, pos + 1) =~= polish(e@));
                assert forall|se: SpecExpr| #[trigger] form_at(ts, pos as int, se) implies e@
                    == se by {
                    assert(polish(se)[0] == ts[pos as int]);
                }
            }
            Some((e, pos + 1))
        },
        Token::Op(op) => {
            let op = *op;
            // Where a tree's form starts here, its subtrees' forms follow.
            assert forall|se: SpecExpr| #[trigger] form_at(ts, pos as int, se) implies (se matches SpecExpr::Node(
                o,
                a,
                b,
            ) && o == op && form_at(ts, pos + 1, *a) && form_at(ts, pos + 1 + polish(*a).len(), *b)) by {
                assert(polish(se)[0] == ts[pos as int]);
                if let SpecExpr::Node(o, a, b) = se {
                    let n = pos + polish(se).len();
                    let la = polish(*a).len() as int;
                    assert(polish(*a) =~= polish(se).subrange(1, 1 + la));
                    assert(polish(*a) =~= ts.subrange(pos + 1, pos + 1 + la));
                    assert(polish(*b) =~= polish(se).subrange(1 + la, polish(se).len() as int));
                    assert(polish(*b) =~= ts.subrange(pos + 1 + la, n));
                }
            }
            let (left, mid) = match read_polish(tokens, pos + 1) {
                Some(x) => x,
                None => {
                    proof {
                        assert forall|se: SpecExpr| !(#[trigger] form_at(ts, pos as int, se)) by {
                            if form_at(ts, pos as int, se) {
                                let a = se->Node_1;
                                assert(form_at(ts, pos + 1, *a));
                                assert(polish(*a) == ts.subrange(
                                    pos + 1,
                                    pos + 1 + polish(*a).len(),
                                ));
                            }
                        }
                    }
                    return None;
                },
            };
            proof {
                assert forall|se: SpecExpr| #[trigger] form_at(ts, pos as int, se) implies polish(
                    *se->Node_1,
                ).len() == mid - (pos + 1) by {
                    let a = se->Node_1;
                    assert(polish(*a) == ts.subrange(pos + 1, pos + 1 + polish(*a).len()));
                }
            }
            let (right, end) = match read_polish(tokens, mid) {
                Some(x) => x,
                None => {
                    proof {
                        assert forall|se: SpecExpr| !(#[trigger] form_at(ts, pos as int, se)) by {
                            if form_at(ts, pos as int, se) {
                                let b = se->Node_2;
                                assert(form_at(ts, mid as int, *b));
                                assert(polish(*b) == ts.subrange(
                                    mid as int,
                                    mid + polish(*b).len(),
                                ));
                            }
                        }
                    }
                    return None;
                },
            };
            let e = Expr::Node(op, Box::new(left), Box::new(right));
            proof {
                assert(ts.subrange(pos as int, end as int) =~= seq![SpecToken::Op(op)]
                    + ts.subrange(pos + 1, mid as int) + ts.subrange(mid as int, end as int));
                assert forall|se: SpecExpr| #[trigger] form_at(ts, pos as int, se) implies e@
                    == se by {
                    assert(form_at(ts, pos as int, se));
                    let a = se->Node_1;
                    let b = se->Node_2;
                    assert(polish(*a) == ts.subrange(pos + 1, pos + 1 + polish(*a).len()));
                    assert(polish(*b) == ts.subrange(mid as int, mid + polish(*b).len()));
                }
            }
            Some((e, end))
        },
    }
}

impl Evaluator {
    /// The tree in Polish (prefix) notation.
    pub fn into_polish(expr: &Expr) -> (r: Vec<Token>)
        ensures
            token_views(r@) == polish(expr@),
        decreases expr,
    {
        match expr {
            Expr::Leaf(s) => {
                let r = vec![Token::Value(s.clone())];
                proof {
                    assert(token_views(r@) =~= polish(expr@));
                }
                r
            },
            Expr::Node(op, l, r) => {
                let mut out = vec![Token::Op(*op)];
                let mut a = Evaluator::into_polish(l);
                let mut b = Evaluator::into_polish(r);
                proof {
                    lemma_views_append(out@, a@);
                    lemma_views_append(out@ + a@, b@);
                    assert(token_views(out@) =~= seq![SpecToken::Op(*op)]);
                }
                out.append(&mut a);
                out.append(&mut b);
                out
            },
        }
    }

    /// The tree whose Polish notation the tokens are, if there is one.
    pub fn polish_to_expr(polish_tokens: &Vec<Token>) -> (r: Option<Expr>)
        ensures
            r matches Some(e) ==> polish(e@) == token_views(polish_tokens@),
            forall|se: SpecExpr| #[trigger]
                polish(se) == token_views(polish_tokens@) ==> (r matches Some(e) && e@ == se),
    {
        let ghost ts = token_views(polish_tokens@);
        proof {
            assert forall|se: SpecExpr| #[trigger] polish(se) == ts implies form_at(ts, 0, se) by {
                assert(ts.subrange(0, ts.len() as int) =~= ts);
            }
        }
        match read_polish(polish_tokens, 0) {
            Some((e, next)) => {
                if next == polish_tokens.len() {
                    proof {
                        assert(ts.subrange(0, next as int) =~= ts);
                    }
                    Some(e)
                } else {
                    None
                }
            },
            None => None,
        }
    }
}

} // verus!
