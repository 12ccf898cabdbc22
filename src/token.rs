use vstd::prelude::*;

use crate::error::{EvalError, SpecError};
use crate::lexer::{
    close_run, is_operator_char, lex, lex_state, strip_blanks, string_views, Evaluator,
};

verus! {

/// A binary operator.
#[derive(Debug, Clone, Copy, PartialEq, Eq, Structural)]
pub enum Operator {
    Add,
    Subtract,
    Mult,
    Divide,
}

impl Operator {
    /// How tightly the operator binds: `*` and `/` above `+` and `-`.
    pub open spec fn prec(self) -> int {
        match self {
            Operator::Add | Operator::Subtract => 1,
            Operator::Mult | Operator::Divide => 2,
        }
    }

    /// The character that writes the operator.
    pub open spec fn symbol(self) -> char {
        match self {
            Operator::Add => '+',
            Operator::Subtract => '-',
            Operator::Mult => '*',
            Operator::Divide => '/',
        }
    }

    pub fn precedence(&self) -> (r: u8)
        ensures
            r as int == self.prec(),
    {
        match self {
            Operator::Add | Operator::Subtract => 1,
            Operator::Mult | Operator::Divide => 2,
        }
    }
}

/// The operator written by an operator character.
pub open spec fn operator_of(c: char) -> Operator {
    if c == '+' {
        Operator::Add
    } else if c == '-' {
        Operator::Subtract
    } else if c == '*' {
        Operator::Mult
    } else {
        Operator::Divide
    }
}

/// One token: a decimal literal, kept as written, or an operator.
#[derive(Debug, PartialEq)]
pub enum Token {
    Value(String),
    Op(Operator),
}

/// The model of [`Token`]: a literal's characters, or the operator.
pub enum SpecToken {
    Num(Seq<char>),
    Op(Operator),
}

impl View for Token {
    type V = SpecToken;

    open spec fn view(&self) -> SpecToken {
        match self {
            Token::Value(s) => SpecToken::Num(s@),
            Token::Op(op) => SpecToken::Op(*op),
        }
    }
}

/// The models of a sequence of tokens.
pub open spec fn token_views(ts: Seq<Token>) -> Seq<SpecToken> {
    ts.map_values(|t: Token| t@)
}

pub open spec fn is_digit(c: char) -> bool {
    '0' <= c <= '9'
}

/// A decimal literal: digits with at most one decimal point among them,
/// and at least one digit (`12`, `12.5`, `.5` and `12.` are literals).
pub open spec fn is_decimal(s: Seq<char>) -> bool {
    &&& forall|i: int| 0 <= i < s.len() ==> is_digit(#[trigger] s[i]) || s[i] == '.'
    &&& exists|i: int| 0 <= i < s.len() && is_digit(#[trigger] s[i])
    &&& forall|i: int, j: int| 0 <= i < j < s.len() && s[i] == '.' ==> s[j] != '.'
}

/// The token that a symbol reads as: the operator of a one-character
/// operator symbol, a literal for a decimal, and none otherwise.
pub open spec fn symbol_token(sym: Seq<char>) -> Option<SpecToken> {
    if sym.len() == 1 && is_operator_char(sym[0]) {
        Some(SpecToken::Op(operator_of(sym[0])))
    } else if is_decimal(sym) {
        Some(SpecToken::Num(sym))
    } else {
        None
    }
}

/// The first position at or after `i` whose symbol reads as no token, or
/// the length where there is none.
pub open spec fn first_malformed_from(syms: Seq<Seq<char>>, i: int) -> int
    decreases syms.len() - i,
{
    if i >= syms.len() {
        syms.len() as int
    } else if symbol_token(syms[i]) is None {
        i
    } else {
        first_malformed_from(syms, i + 1)
    }
}

/// The tokens of a sequence of symbols, position for position, or the
/// first symbol that is no token.
pub open spec fn tokenized(syms: Seq<Seq<char>>) -> Result<Seq<SpecToken>, SpecError> {
    let i = first_malformed_from(syms, 0);
    if i < syms.len() {
        Err(SpecError::MalformedNumber(syms[i], i))
    } else {
        Ok(syms.map_values(|s: Seq<char>| symbol_token(s)->Some_0))
    }
}

/// The characters that write a token.
pub open spec fn token_text(t: SpecToken) -> Seq<char> {
    match t {
        SpecToken::Num(s) => s,
        SpecToken::Op(op) => seq![op.symbol()],
    }
}

proof fn lemma_lex_state_rejoins(cs: Seq<char>)
    ensures
        lex_state(cs).0.flatten() + lex_state(cs).1 == cs,
    decreases cs.len(),
{
    broadcast use Seq::lemma_flatten_push;

    if cs.len() > 0 {
        let init = cs.drop_last();
        lemma_lex_state_rejoins(init);
        let (done, run) = lex_state(init);
        let c = cs.last();
        assert(close_run(done, run).flatten() =~= done.flatten() + run);
        assert(init.push(c) =~= cs);
        if is_operator_char(c) {
            assert(lex_state(cs).0.flatten() + lex_state(cs).1 =~= init.push(c));
        } else {
            assert(lex_state(cs).0.flatten() + lex_state(cs).1 =~= init.push(c));
        }
    }
}

/// Lexing loses no character: the symbols, one after another, are the
/// characters that were lexed.
pub proof fn lemma_lex_rejoins(cs: Seq<char>)
    ensures
        lex(cs).flatten() == cs,
{
    broadcast use Seq::lemma_flatten_push;

    lemma_lex_state_rejoins(cs);
    let (done, run) = lex_state(cs);
    assert(close_run(done, run).flatten() =~= done.flatten() + run);
}

pub(crate) proof fn lemma_first_malformed_bound(syms: Seq<Seq<char>>, i: int)
    ensures
        first_malformed_from(syms, i) <= syms.len(),
    decreases syms.len() - i,
{
    if i < syms.len() {
        lemma_first_malformed_bound(syms, i + 1);
    }
}

pub(crate) proof fn lemma_all_read(syms: Seq<Seq<char>>, i: int)
    requires
        0 <= i,
        first_malformed_from(syms, i) == syms.len(),
    ensures
        forall|j: int| i <= j < syms.len() ==> #[trigger] symbol_token(syms[j]) is Some,
    decreases syms.len() - i,
{
    if i < syms.len() {
        lemma_all_read(syms, i + 1);
    }
}

/// Lexing and then reading tokens is lossless: where the text reads as
/// tokens, their characters, one after another, give back the text without
/// its whitespace, so each literal keeps the exact digits it was written
/// with.
pub proof fn lemma_tokens_rejoin(text: Seq<char>)
    ensures
        tokenized(lex(strip_blanks(text))) matches Ok(ts) ==> ts.map_values(
            |t: SpecToken| token_text(t),
        ).flatten() == strip_blanks(text),
{
    let syms = lex(strip_blanks(text));
    lemma_lex_rejoins(strip_blanks(text));
    if let Ok(ts) = tokenized(syms) {
        lemma_first_malformed_bound(syms, 0);
        lemma_all_read(syms, 0);
        assert forall|j: int| 0 <= j < syms.len() implies token_text(
            #[trigger] symbol_token(syms[j])->Some_0,
        ) == syms[j] by {
            if syms[j].len() == 1 && is_operator_char(syms[j][0]) {
                assert(syms[j] =~= seq![syms[j][0]]);
            }
        }
        assert(ts.map_values(|t: SpecToken| token_text(t)) =~= syms);
    }
}

/// The characters of a string, in their order.
fn chars_of(s: &String) -> (r: Vec<char>)
    ensures
        r@ == s@,
{
    let mut out: Vec<char> = Vec::new();
    for c in it: s.as_str().chars()
        invariant
            it.seq() == s@,
            out@ == s@.take(it.index() as int),
    {
        proof {
            assert(s@.take(it.index() + 1) =~= out@.push(c));
        }
        out.push(c);
    }
    proof {
        assert(s@.take(s@.len() as int) =~= s@);
    }
    out
}

fn digit(c: char) -> (r: bool)
    ensures
        r == is_digit(c),
{
    '0' <= c && c <= '9'
}

/// Whether the characters form a decimal literal.
fn decimal(cs: &Vec<char>) -> (r: bool)
    ensures
        r == is_decimal(cs@),
{
    let mut seen_digit = false;
    let mut seen_point = false;
    let mut i: usize = 0;
    while i < cs.len()
        invariant
            i <= cs.len(),
            forall|k: int| 0 <= k < i ==> is_digit(#[trigger] cs@[k]) || cs@[k] == '.',
            seen_digit == exists|k: int| 0 <= k < i && is_digit(#[trigger] cs@[k]),
            seen_point == exists|k: int| 0 <= k < i && #[trigger] cs@[k] == '.',
            forall|k: int, j: int| 0 <= k < j < i && cs@[k] == '.' ==> cs@[j] != '.',
        decreases cs.len() - i,
    {
        let c = cs[i];
        if digit(c) {
            seen_digit = true;
        } else if c == '.' {
            if seen_point {
                return false;
            }
            seen_point = true;
        } else {
            assert(!(is_digit(cs@[i as int]) || cs@[i as int] == '.'));
            return false;
        }
        i = i + 1;
    }
    seen_digit
}

impl Evaluator {
    /// The operator token of an operator character.
    pub fn select_operator(token: &char) -> (r: Option<Token>)
        ensures
            r matches Some(t) ==> t@ == SpecToken::Op(operator_of(*token)),
            r is Some <==> is_operator_char(*token),
    {
        match token {
            '+' => Some(Token::Op(Operator::Add)),
            '*' => Some(Token::Op(Operator::Mult)),
            '-' => Some(Token::Op(Operator::Subtract)),
            '/' => Some(Token::Op(Operator::Divide)),
            _ => None,
        }
    }

    /// The token that one symbol reads as, if any.
    pub fn read_symbol(symbol: &String) -> (r: Option<Token>)
        ensures
            r matches Some(t) ==> symbol_token(symbol@) == Some(t@),
            r is None <==> symbol_token(symbol@) is None,
    {
        let cs = chars_of(symbol);
        if cs.len() == 1 && Evaluator::is_operator(&cs[0]) {
            return Evaluator::select_operator(&cs[0]);
        }
        if decimal(&cs) {
            Some(Token::Value(symbol.clone()))
        } else {
            None
        }
    }

    /// The tokens of a sequence of symbols, position for position. Fails
    /// with `MalformedNumber` at the first symbol that is neither an
    /// operator nor a decimal literal.
    pub fn tokenize(symbols: &Vec<String>) -> (r: Result<Vec<Token>, EvalError>)
        ensures
            match r {
                Ok(ts) => tokenized(string_views(symbols@)) == Ok::<_, SpecError>(token_views(ts@)),
                Err(e) => tokenized(string_views(symbols@)) == Err::<Seq<SpecToken>, _>(e@),
            },
    {
        let ghost syms = string_views(symbols@);
        let mut tokens: Vec<Token> = Vec::new();
        for i in 0..symbols.len()
            invariant
                syms == string_views(symbols@),
                first_malformed_from(syms, 0) == first_malformed_from(syms, i as int),
                token_views(tokens@) =~= syms.take(i as int).map_values(
                    |s: Seq<char>| symbol_token(s)->Some_0,
                ),
        {
            match Evaluator::read_symbol(&symbols[i]) {
                Some(t) => {
                    proof {
                        assert(token_views(tokens@.push(t)) =~= token_views(tokens@).push(t@));
                        assert(syms.take(i + 1) =~= syms.take(i as int).push(syms[i as int]));
                    }
                    tokens.push(t);
                },
                None => {
                    return Err(EvalError::MalformedNumber(symbols[i].clone(), i));
                },
            }
        }
        proof {
            assert(syms.take(syms.len() as int) =~= syms);
        }
        Ok(tokens)
    }

    /// The tokens of the expression: its symbols read one by one.
    pub fn extract_tokens(&self) -> (r: Result<Vec<Token>, EvalError>)
        ensures
            match r {
                Ok(ts) => tokenized(lex(strip_blanks(self@))) == Ok::<_, SpecError>(token_views(ts@)),
                Err(e) => tokenized(lex(strip_blanks(self@))) == Err::<Seq<SpecToken>, _>(e@),
            },
    {
        let symbols = self.extract_chars_grouped();
        Evaluator::tokenize(&symbols)
    }
}

} // verus!
