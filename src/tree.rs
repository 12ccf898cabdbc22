use vstd::prelude::*;

use crate::error::{EvalError, SpecError};
use crate::lexer::{is_run, lemma_lex_grouped, lex, strip_blanks, Evaluator};
use crate::token::{
    lemma_all_read, lemma_first_malformed_bound, symbol_token, token_views, tokenized, Operator,
    SpecToken, Token,
};

verus! {

/// An expression tree: a literal, or an operator over two subtrees that it
/// owns.
#[derive(Debug, PartialEq)]
pub enum Expr {
    Leaf(String),
    Node(Operator, Box<Expr>, Box<Expr>),
}

/// The model of [`Expr`].
pub enum SpecExpr {
    Leaf(Seq<char>),
    Node(Operator, Box<SpecExpr>, Box<SpecExpr>),
}

impl View for Expr {
    type V = SpecExpr;

    open spec fn view(&self) -> SpecExpr
        decreases self,
    {
        match self {
            Expr::Leaf(s) => SpecExpr::Leaf(s@),
            Expr::Node(op, l, r) => SpecExpr::Node(*op, Box::new((**l)@), Box::new((**r)@)),
        }
    }
}

/// Whether `t` is an operator of precedence `p`.
pub open spec fn binds_at(t: SpecToken, p: int) -> bool {
    t matches SpecToken::Op(op) && op.prec() == p
}

/// The last position in `lo..hi` that holds an operator of precedence
/// `p`, or -1.
pub open spec fn last_at(ts: Seq<SpecToken>, lo: int, hi: int, p: int) -> int
    decreases hi - lo,
{
    if hi <= lo {
        -1
    } else if binds_at(ts[hi - 1], p) {
        hi - 1
    } else {
        last_at(ts, lo, hi - 1, p)
    }
}

/// The position of the root operator of `ts[lo..hi]`: the last operator of
/// the lowest precedence that occurs there, or -1 where there is none.
pub open spec fn root_in(ts: Seq<SpecToken>, lo: int, hi: int) -> int {
    let k = last_at(ts, lo, hi, 1);
    if k >= lo {
        k
    } else {
        last_at(ts, lo, hi, 2)
    }
}

/// The tree of `ts[lo..hi]`: the root operator over the trees of what
/// stands left and right of it, or a leaf where no operator is left.
/// Operators of one precedence thus nest to the left, and one that binds
/// tighter sits below one that binds less tightly.
pub open spec fn tree_in(ts: Seq<SpecToken>, lo: int, hi: int) -> SpecExpr
    decreases hi - lo,
{
    let k = root_in(ts, lo, hi);
    if lo <= k < hi {
        SpecExpr::Node(
            ts[k]->Op_0,
            Box::new(tree_in(ts, lo, k)),
            Box::new(tree_in(ts, k + 1, hi)),
        )
    } else {
        SpecExpr::Leaf(ts[lo]->Num_0)
    }
}

/// The tree of a whole token sequence.
pub open spec fn tree_of(ts: Seq<SpecToken>) -> SpecExpr {
    tree_in(ts, 0, ts.len() as int)
}

/// Whether the token at `i` is out of place: an operator at an even
/// position, or a literal at an odd one.
pub open spec fn misplaced(ts: Seq<SpecToken>, i: int) -> bool {
    (ts[i] is Num) != (i % 2 == 0)
}

/// The first position at or after `i` that is out of place, or the length.
pub open spec fn first_misplaced_from(ts: Seq<SpecToken>, i: int) -> int
    decreases ts.len() - i,
{
    if i >= ts.len() {
        ts.len() as int
    } else if misplaced(ts, i) {
        i
    } else {
        first_misplaced_from(ts, i + 1)
    }
}

/// What building a tree from `ts` gives. A sequence that alternates
/// literal, operator, literal, ..., literal gives its tree; otherwise the
/// first position out of place decides the error.
pub open spec fn build_outcome(ts: Seq<SpecToken>) -> Result<SpecExpr, SpecError> {
    let m = first_misplaced_from(ts, 0);
    if ts.len() == 0 {
        Err(SpecError::EmptyExpression)
    } else if m < ts.len() {
        if m % 2 == 0 {
            Err(SpecError::UnexpectedToken(m))
        } else {
            Err(SpecError::TrailingTokens(m))
        }
    } else if ts.len() % 2 == 0 {
        Err(SpecError::UnexpectedEnd)
    } else {
        Ok(tree_of(ts))
    }
}

/// What evaluating the text `text` builds: its symbols, read as tokens,
/// folded into a tree; or the first error of these stages.
pub open spec fn expression_outcome(text: Seq<char>) -> Result<SpecExpr, SpecError> {
    match tokenized(lex(strip_blanks(text))) {
        Ok(ts) => build_outcome(ts),
        Err(e) => Err(e),
    }
}

/// Whether `ts[lo..hi]` alternates literal, operator, literal, ...
pub open spec fn alternates(ts: Seq<SpecToken>, lo: int, hi: int) -> bool {
    forall|i: int| lo <= i < hi ==> ((#[trigger] ts[i]) is Num <==> (i - lo) % 2 == 0)
}

/// Whether every operator in `ts[lo..hi]` has precedence at least `p`.
pub open spec fn ops_at_least(ts: Seq<SpecToken>, lo: int, hi: int, p: int) -> bool {
    forall|i: int| lo <= i < hi && (#[trigger] ts[i]) is Op ==> ts[i]->Op_0.prec() >= p
}

proof fn lemma_last_found(ts: Seq<SpecToken>, lo: int, hi: int, p: int, k: int)
    requires
        lo <= k < hi <= ts.len(),
        binds_at(ts[k], p),
        forall|j: int| k < j < hi ==> !binds_at(#[trigger] ts[j], p),
    ensures
        last_at(ts, lo, hi, p) == k,
    decreases hi - lo,
{
    if hi - 1 != k {
        lemma_last_found(ts, lo, hi - 1, p, k);
    }
}

proof fn lemma_last_none(ts: Seq<SpecToken>, lo: int, hi: int, p: int)
    requires
        0 <= lo,
        hi <= ts.len(),
        forall|j: int| lo <= j < hi ==> !binds_at(#[trigger] ts[j], p),
    ensures
        last_at(ts, lo, hi, p) == -1,
    decreases hi - lo,
{
    if lo < hi {
        lemma_last_none(ts, lo, hi - 1, p);
    }
}

/// An operator that binds no tighter than all before it and less tightly
/// than all after it is the root.
proof fn lemma_fold(ts: Seq<SpecToken>, lo: int, q: int, hi: int)
    requires
        0 <= lo < q < hi <= ts.len(),
        ts[q] is Op,
        ops_at_least(ts, lo, q, ts[q]->Op_0.prec()),
        ops_at_least(ts, q + 1, hi, ts[q]->Op_0.prec() + 1),
    ensures
        tree_in(ts, lo, hi) == SpecExpr::Node(
            ts[q]->Op_0,
            Box::new(tree_in(ts, lo, q)),
            Box::new(tree_in(ts, q + 1, hi)),
        ),
{
    let p = ts[q]->Op_0.prec();
    if p == 1 {
        assert forall|j: int| q < j < hi implies !binds_at(#[trigger] ts[j], 1) by {
            assert(ts[j] is Op ==> ts[j]->Op_0.prec() >= 2);
        }
        lemma_last_found(ts, lo, hi, 1, q);
    } else {
        assert forall|j: int| lo <= j < hi implies !binds_at(#[trigger] ts[j], 1) by {
            if j < q {
                assert(ts[j] is Op ==> ts[j]->Op_0.prec() >= 2);
            } else if j > q {
                assert(ts[j] is Op ==> ts[j]->Op_0.prec() >= 3);
            }
        }
        lemma_last_none(ts, lo, hi, 1);
        assert forall|j: int| q < j < hi implies !binds_at(#[trigger] ts[j], 2) by {
            assert(ts[j] is Op ==> ts[j]->Op_0.prec() >= 3);
        }
        lemma_last_found(ts, lo, hi, 2, q);
    }
}

/// A single literal is a leaf.
proof fn lemma_leaf(ts: Seq<SpecToken>, lo: int)
    requires
        0 <= lo < ts.len(),
        ts[lo] is Num,
    ensures
        tree_in(ts, lo, lo + 1) == SpecExpr::Leaf(ts[lo]->Num_0),
{
    lemma_last_none(ts, lo, lo + 1, 1);
    lemma_last_none(ts, lo, lo + 1, 2);
}

/// Positions before `m` that are in place do not change the first one out
/// of place.
proof fn lemma_first_misplaced(ts: Seq<SpecToken>, i: int, m: int)
    requires
        0 <= i <= m <= ts.len(),
        forall|j: int| i <= j < m ==> !misplaced(ts, j),
    ensures
        first_misplaced_from(ts, i) == first_misplaced_from(ts, m),
    decreases m - i,
{
    if i < m {
        lemma_first_misplaced(ts, i + 1, m);
    }
}

/// Whether every operator in `e` has precedence at least `p`.
pub open spec fn all_ops_at_least(e: SpecExpr, p: int) -> bool
    decreases e,
{
    match e {
        SpecExpr::Leaf(_) => true,
        SpecExpr::Node(op, l, r) => op.prec() >= p && all_ops_at_least(*l, p)
            && all_ops_at_least(*r, p),
    }
}

/// The shape that precedence and left associativity give a tree: below
/// each operator, its left subtree holds no operator that binds less
/// tightly, and its right subtree only operators that bind more tightly.
pub open spec fn well_nested(e: SpecExpr) -> bool
    decreases e,
{
    match e {
        SpecExpr::Leaf(_) => true,
        SpecExpr::Node(op, l, r) => {
            &&& all_ops_at_least(*l, op.prec())
            &&& all_ops_at_least(*r, op.prec() + 1)
            &&& well_nested(*l)
            &&& well_nested(*r)
        },
    }
}

proof fn lemma_last_at(ts: Seq<SpecToken>, lo: int, hi: int, p: int)
    requires
        0 <= lo,
        hi <= ts.len(),
    ensures
        ({
            let k = last_at(ts, lo, hi, p);
            ||| k == -1 && forall|j: int| lo <= j < hi ==> !binds_at(#[trigger] ts[j], p)
            ||| lo <= k < hi && binds_at(ts[k], p) && forall|j: int|
                k < j < hi ==> !binds_at(#[trigger] ts[j], p)
        }),
    decreases hi - lo,
{
    if lo < hi {
        lemma_last_at(ts, lo, hi - 1, p);
    }
}

proof fn lemma_tree_ops(ts: Seq<SpecToken>, lo: int, hi: int, p: int)
    requires
        0 <= lo,
        hi <= ts.len(),
        ops_at_least(ts, lo, hi, p),
    ensures
        all_ops_at_least(tree_in(ts, lo, hi), p),
    decreases hi - lo,
{
    lemma_last_at(ts, lo, hi, 1);
    lemma_last_at(ts, lo, hi, 2);
    let k = root_in(ts, lo, hi);
    if lo <= k < hi {
        lemma_tree_ops(ts, lo, k, p);
        lemma_tree_ops(ts, k + 1, hi, p);
    }
}

proof fn lemma_nested_in(ts: Seq<SpecToken>, lo: int, hi: int)
    requires
        0 <= lo,
        hi <= ts.len(),
    ensures
        well_nested(tree_in(ts, lo, hi)),
    decreases hi - lo,
{
    lemma_last_at(ts, lo, hi, 1);
    lemma_last_at(ts, lo, hi, 2);
    let k = root_in(ts, lo, hi);
    if lo <= k < hi {
        let p = ts[k]->Op_0.prec();
        assert forall|j: int| lo <= j < k && (#[trigger] ts[j]) is Op implies ts[j]->Op_0.prec()
            >= p by {
            assert(!binds_at(ts[j], 1) || p == 1);
        }
        assert forall|j: int| k + 1 <= j < hi && (#[trigger] ts[j]) is Op implies ts[j]->Op_0.prec()
            >= p + 1 by {
            assert(!binds_at(ts[j], p));
            assert(!binds_at(ts[j], 1));
        }
        lemma_tree_ops(ts, lo, k, p);
        lemma_tree_ops(ts, k + 1, hi, p + 1);
        lemma_nested_in(ts, lo, k);
        lemma_nested_in(ts, k + 1, hi);
    }
}

/// Every tree that a token sequence folds into has the shape of precedence
/// and left associativity: an operator that binds more tightly always sits
/// strictly below one that binds less tightly over the same operands, and
/// of two operators of one precedence the left one sits deeper.
pub proof fn lemma_tree_well_nested(ts: Seq<SpecToken>)
    ensures
        well_nested(tree_of(ts)),
{
    lemma_nested_in(ts, 0, ts.len() as int);
}

/// Where all operators of an expression of three or more operands share
/// one precedence (only `*` and `/`, say), the tree leans left: the
/// root's left child is itself an operator.
pub proof fn lemma_uniform_leans_left(ts: Seq<SpecToken>, p: int)
    requires
        ts.len() >= 5,
        ts.len() % 2 == 1,
        alternates(ts, 0, ts.len() as int),
        forall|i: int| 0 <= i < ts.len() && (#[trigger] ts[i]) is Op ==> ts[i]->Op_0.prec() == p,
    ensures
        tree_of(ts) matches SpecExpr::Node(_, l, _) && *l is Node,
{
    let n = ts.len() as int;
    assert(ts[1] is Op && ts[n - 2] is Op && !(ts[n - 1] is Op));
    lemma_last_at(ts, 0, n, 1);
    lemma_last_at(ts, 0, n, 2);
    assert(binds_at(ts[n - 2], p));
    let k = root_in(ts, 0, n);
    assert(k == n - 2) by {
        if p == 1 {
            assert(binds_at(ts[n - 2], 1));
        } else {
            assert(!binds_at(ts[n - 2], 1));
            assert forall|j: int| 0 <= j < n implies !binds_at(#[trigger] ts[j], 1) by {
                assert(ts[j] is Op ==> ts[j]->Op_0.prec() == p);
            }
        }
    }
    assert(1 < k);
    lemma_last_at(ts, 0, k, 1);
    lemma_last_at(ts, 0, k, 2);
    assert(binds_at(ts[1], p));
    assert(0 <= root_in(ts, 0, k) < k);
    assert(tree_in(ts, 0, k) is Node);
    assert(tree_of(ts) == SpecExpr::Node(
        ts[k]->Op_0,
        Box::new(tree_in(ts, 0, k)),
        Box::new(tree_in(ts, k + 1, n)),
    ));
}

proof fn lemma_in_place_before(ts: Seq<SpecToken>, i: int)
    requires
        0 <= i,
    ensures
        forall|j: int| i <= j < first_misplaced_from(ts, i) ==> !misplaced(ts, j),
        i <= first_misplaced_from(ts, i) || ts.len() < i,
        first_misplaced_from(ts, i) < ts.len() ==> misplaced(ts, first_misplaced_from(ts, i)),
    decreases ts.len() - i,
{
    if i < ts.len() && !misplaced(ts, i) {
        lemma_in_place_before(ts, i + 1);
    }
}

/// Text never gives `TrailingTokens`: whitespace separates nothing, so
/// two literals never stand side by side among the tokens of a text.
pub proof fn lemma_text_has_no_trailing_tokens(text: Seq<char>)
    ensures
        !(expression_outcome(text) matches Err(SpecError::TrailingTokens(_))),
{
    let syms = lex(strip_blanks(text));
    lemma_lex_grouped(strip_blanks(text));
    if let Ok(ts) = tokenized(syms) {
        let m = first_misplaced_from(ts, 0);
        if ts.len() > 0 && m < ts.len() && m % 2 == 1 {
            lemma_first_malformed_bound(syms, 0);
            lemma_all_read(syms, 0);
            lemma_in_place_before(ts, 0);
            assert(0 <= m - 1 < m);
            assert(!misplaced(ts, m - 1));
            assert(ts == syms.map_values(|s: Seq<char>| symbol_token(s)->Some_0));
            assert(ts.len() == syms.len());
            assert forall|j: int| 0 <= j < ts.len() && (#[trigger] ts[j]) is Num implies is_run(
                syms[j],
            ) by {
                assert(symbol_token(syms[j]) is Some);
                assert(forall|k: int|
                    0 <= k < syms[j].len() ==> crate::token::is_digit(#[trigger] syms[j][k])
                        || syms[j][k] == '.');
            }
            assert(ts[m] is Num && ts[m - 1] is Num);
            assert(is_run(syms[m - 1]) && is_run(syms[m]));
        }
    }
}

/// A literal at `pos`.
fn parse_primary(tokens: &Vec<Token>, pos: usize) -> (r: Result<Expr, EvalError>)
    requires
        pos <= tokens.len(),
    ensures
        match r {
            Ok(e) => pos < tokens.len() && tokens@[pos as int]@ is Num
                && e@ == SpecExpr::Leaf(tokens@[pos as int]@->Num_0),
            Err(err) => if pos == tokens.len() {
                err@ == SpecError::UnexpectedEnd
            } else {
                tokens@[pos as int]@ is Op && err@ == SpecError::UnexpectedToken(pos as int)
            },
        },
{
    if pos >= tokens.len() {
        return Err(EvalError::UnexpectedEnd);
    }
    match &tokens[pos] {
        Token::Value(s) => Ok(Expr::Leaf(s.clone())),
        Token::Op(_) => Err(EvalError::UnexpectedToken(pos)),
    }
}

/// Precedence climbing from `pos`: a literal, then each following operator
/// of precedence at least `min_prec` with the operand to its right, read at
/// one level higher. Gives the tree and the position after it.
#[verifier::rlimit(40)]
fn parse_expression(tokens: &Vec<Token>, pos: usize, min_prec: u8) -> (r: Result<
    (Expr, usize),
    EvalError,
>)
    requires
        pos <= tokens.len(),
        min_prec <= 3,
    ensures
        ({
            let ts = token_views(tokens@);
            match r {
                Ok((e, end)) => {
                    &&& pos < end <= ts.len()
                    &&& (end - pos) % 2 == 1
                    &&& alternates(ts, pos as int, end as int)
                    &&& ops_at_least(ts, pos as int, end as int, min_prec as int)
                    &&& end < ts.len() ==> !(ts[end as int] is Op && ts[end as int]->Op_0.prec()
                        >= min_prec)
                    &&& e@ == tree_in(ts, pos as int, end as int)
                },
                Err(err) => match err@ {
                    SpecError::UnexpectedToken(m) => {
                        &&& pos <= m < ts.len()
                        &&& (m - pos) % 2 == 0
                        &&& ts[m] is Op
                        &&& alternates(ts, pos as int, m)
                    },
                    SpecError::UnexpectedEnd => {
                        &&& (ts.len() - pos) % 2 == 0
                        &&& alternates(ts, pos as int, ts.len() as int)
                    },
                    _ => false,
                },
            }
        }),
    decreases tokens.len() - pos,
{
    let ghost ts = token_views(tokens@);
    let mut left = match parse_primary(tokens, pos) {
        Ok(e) => e,
        Err(e) => {
            return Err(e);
        },
    };
    let mut cur: usize = pos + 1;
    proof {
        lemma_leaf(ts, pos as int);
    }
    loop
        invariant
            ts == token_views(tokens@),
            pos < cur <= ts.len(),
            min_prec <= 3,
            (cur - pos) % 2 == 1,
            alternates(ts, pos as int, cur as int),
            ops_at_least(ts, pos as int, cur as int, min_prec as int),
            left@ == tree_in(ts, pos as int, cur as int),
            cur < ts.len() && ts[cur as int] is Op ==> ops_at_least(
                ts,
                pos as int,
                cur as int,
                ts[cur as int]->Op_0.prec(),
            ),
        ensures
            cur < ts.len() ==> !(ts[cur as int] is Op && ts[cur as int]->Op_0.prec() >= min_prec),
        decreases ts.len() - cur,
    {
        if cur >= tokens.len() {
            break ;
        }
        let op = match &tokens[cur] {
            Token::Op(op) => *op,
            Token::Value(_) => {
                break ;
            },
        };
        let p = op.precedence();
        if p < min_prec {
            break ;
        }
        match parse_expression(tokens, cur + 1, p + 1) {
            Ok((right, next)) => {
                proof {
                    assert(alternates(ts, pos as int, next as int));
                    lemma_fold(ts, pos as int, cur as int, next as int);
                    assert(ops_at_least(ts, pos as int, next as int, min_prec as int));
                    if next < ts.len() && ts[next as int] is Op {
                        assert(ops_at_least(ts, pos as int, next as int, ts[next as int]->Op_0.prec()));
                    }
                }
                left = Expr::Node(op, Box::new(left), Box::new(right));
                cur = next;
            },
            Err(e) => {
                proof {
                    if let SpecError::UnexpectedToken(m) = e@ {
                        assert(alternates(ts, pos as int, m));
                    } else {
                        assert(alternates(ts, pos as int, ts.len() as int));
                    }
                }
                return Err(e);
            },
        }
    }
    Ok((left, cur))
}

impl Evaluator {
    /// Folds a token sequence into its expression tree by precedence
    /// climbing: `*` and `/` bind tighter than `+` and `-`, and operators of
    /// one precedence group from the left.
    pub fn build_tree(tokens: &Vec<Token>) -> (r: Result<Expr, EvalError>)
        ensures
            match r {
                Ok(e) => build_outcome(token_views(tokens@)) == Ok::<_, SpecError>(e@),
                Err(err) => build_outcome(token_views(tokens@)) == Err::<SpecExpr, _>(err@),
            },
    {
        let ghost ts = token_views(tokens@);
        if tokens.len() == 0 {
            return Err(EvalError::EmptyExpression);
        }
        match parse_expression(tokens, 0, 0) {
            Ok((e, end)) => {
                proof {
                    assert forall|j: int| 0 <= j < end implies !misplaced(ts, j) by {
                        assert(ts[j] is Num <==> (j - 0) % 2 == 0);
                    }
                    lemma_first_misplaced(ts, 0, end as int);
                }
                if end < tokens.len() {
                    proof {
                        assert(misplaced(ts, end as int));
                    }
                    Err(EvalError::TrailingTokens(end))
                } else {
                    Ok(e)
                }
            },
            Err(err) => {
                proof {
                    if let SpecError::UnexpectedToken(m) = err@ {
                        assert forall|j: int| 0 <= j < m implies !misplaced(ts, j) by {
                            assert(ts[j] is Num <==> (j - 0) % 2 == 0);
                        }
                        lemma_first_misplaced(ts, 0, m);
                    } else {
                        assert forall|j: int| 0 <= j < ts.len() implies !misplaced(ts, j) by {
                            assert(ts[j] is Num <==> (j - 0) % 2 == 0);
                        }
                        lemma_first_misplaced(ts, 0, ts.len() as int);
                    }
                }
                Err(err)
            },
        }
    }

    /// The expression tree of the text: lexed, read as tokens and folded.
    /// The first stage that fails gives the error.
    pub fn build_expr(&self) -> (r: Result<Expr, EvalError>)
        ensures
            match r {
                Ok(e) => expression_outcome(self@) == Ok::<_, SpecError>(e@),
                Err(err) => expression_outcome(self@) == Err::<SpecExpr, _>(err@),
            },
    {
        match self.extract_tokens() {
            Ok(tokens) => Evaluator::build_tree(&tokens),
            Err(e) => Err(e),
        }
    }
}

} // verus!
