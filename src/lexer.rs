use vstd::prelude::*;

verus! {

/// ASCII whitespace, the characters that the lexer drops: space, tab,
/// line feed, form feed and carriage return.
pub open spec fn is_blank(c: char) -> bool {
    c == ' ' || c == '\t' || c == '\n' || c == '\x0C' || c == '\r'
}

/// The characters of `cs` that are not whitespace, in their order.
pub open spec fn strip_blanks(cs: Seq<char>) -> Seq<char> {
    cs.filter(|c: char| !is_blank(c))
}

/// The four operator characters, each a symbol of its own.
pub open spec fn is_operator_char(c: char) -> bool {
    c == '+' || c == '-' || c == '*' || c == '/'
}

/// Closes the operand run `run` onto the symbols read so far, if it is
/// not empty.
pub open spec fn close_run(done: Seq<Seq<char>>, run: Seq<char>) -> Seq<Seq<char>> {
    if run.len() == 0 {
        done
    } else {
        done.push(run)
    }
}

/// After reading `cs`: the symbols completed and the operand run still open.
/// An operator character closes the run and stands as a symbol of its own;
/// any other character extends the run.
pub open spec fn lex_state(cs: Seq<char>) -> (Seq<Seq<char>>, Seq<char>)
    decreases cs.len(),
{
    if cs.len() == 0 {
        (Seq::empty(), Seq::empty())
    } else {
        let (done, run) = lex_state(cs.drop_last());
        let c = cs.last();
        if is_operator_char(c) {
            (close_run(done, run).push(seq![c]), Seq::empty())
        } else {
            (done, run.push(c))
        }
    }
}

/// The symbols of `cs`: the maximal runs of operand characters and the
/// single operator characters, in reading order.
pub open spec fn lex(cs: Seq<char>) -> Seq<Seq<char>> {
    close_run(lex_state(cs).0, lex_state(cs).1)
}

/// A run of operand characters: not empty, and no operator character in it.
pub open spec fn is_run(s: Seq<char>) -> bool {
    s.len() > 0 && forall|i: int| 0 <= i < s.len() ==> !is_operator_char(#[trigger] s[i])
}

/// A symbol that is one operator character.
pub open spec fn is_operator_symbol(s: Seq<char>) -> bool {
    s.len() == 1 && is_operator_char(s[0])
}

/// Every symbol is an operator or a run, and no two runs are neighbours.
pub open spec fn well_grouped(ss: Seq<Seq<char>>) -> bool {
    &&& forall|i: int| 0 <= i < ss.len() ==> is_run(#[trigger] ss[i]) || is_operator_symbol(ss[i])
    &&& forall|i: int| 0 <= i < ss.len() - 1 ==> !(is_run(#[trigger] ss[i]) && is_run(ss[i + 1]))
}

proof fn lemma_lex_state_grouped(cs: Seq<char>)
    ensures
        well_grouped(lex_state(cs).0),
        forall|i: int|
            0 <= i < lex_state(cs).1.len() ==> !is_operator_char(#[trigger] lex_state(cs).1[i]),
        lex_state(cs).0.len() > 0 ==> is_operator_symbol(lex_state(cs).0.last()),
    decreases cs.len(),
{
    if cs.len() > 0 {
        lemma_lex_state_grouped(cs.drop_last());
        let (done, run) = lex_state(cs.drop_last());
        let c = cs.last();
        if is_operator_char(c) {
            let closed = close_run(done, run);
            assert(well_grouped(closed));
            assert(is_operator_symbol(seq![c]));
            assert(!is_run(seq![c]));
            assert(closed.push(seq![c]).last() == seq![c]);
            assert(well_grouped(closed.push(seq![c])));
        } else {
            assert(forall|i: int| 0 <= i < run.len() ==> run.push(c)[i] == run[i]);
        }
    }
}

/// The symbols of any text are operators and runs of operand characters,
/// and each run is maximal: no run stands next to another.
pub proof fn lemma_lex_grouped(cs: Seq<char>)
    ensures
        well_grouped(lex(cs)),
{
    lemma_lex_state_grouped(cs);
    let (done, run) = lex_state(cs);
    if run.len() > 0 {
        assert(is_run(run));
        assert(well_grouped(done.push(run)));
    }
}

/// The views of a sequence of strings.
pub open spec fn string_views(v: Seq<String>) -> Seq<Seq<char>> {
    v.map_values(|s: String| s@)
}

proof fn lemma_string_views_push(v: Seq<String>, s: String)
    ensures
        string_views(v.push(s)) == string_views(v).push(s@),
{
    assert(string_views(v.push(s)) =~= string_views(v).push(s@));
}

/// Relies on std's `FromIterator<char>` for `String`: the string holds the
/// characters in their order.
#[verifier::external_body]
fn string_from_chars(cs: &Vec<char>) -> (r: String)
    ensures
        r@ == cs@,
{
    cs.iter().collect()
}

/// Holds the text of one expression.
pub struct Evaluator {
    expression: String,
}

impl View for Evaluator {
    type V = Seq<char>;

    closed spec fn view(&self) -> Seq<char> {
        self.expression@
    }
}

fn blank(c: char) -> (r: bool)
    ensures
        r == is_blank(c),
{
    c == ' ' || c == '\t' || c == '\n' || c == '\x0C' || c == '\r'
}

impl Evaluator {
    /// An evaluator for the text `expression`.
    pub fn new(expression: String) -> (r: Evaluator)
        ensures
            r@ == expression@,
    {
        Evaluator { expression }
    }

    /// The characters of the expression with whitespace removed.
    pub fn extract_chars(&self) -> (r: Vec<char>)
        ensures
            r@ == strip_blanks(self@),
    {
        let mut out: Vec<char> = Vec::new();
        for c in it: self.expression.as_str().chars()
            invariant
                it.seq() == self@,
                out@ == strip_blanks(self@.take(it.index() as int)),
        {
            proof {
                reveal(Seq::filter);
                assert(self@.take(it.index() + 1).drop_last() =~= self@.take(it.index() as int));
            }
            if !blank(c) {
                out.push(c);
            }
        }
        proof {
            assert(self@.take(self@.len() as int) =~= self@);
        }
        out
    }

    /// The symbols of the expression: each operator character alone, and
    /// every maximal run of other characters between them as one symbol.
    /// Whitespace is removed first and never separates two characters.
    pub fn extract_chars_grouped(&self) -> (r: Vec<String>)
        ensures
            string_views(r@) == lex(strip_blanks(self@)),
    {
        let chars = self.extract_chars();
        let ghost cs = chars@;
        let mut grouped: Vec<String> = Vec::new();
        let mut temp: Vec<char> = Vec::new();
        for i in 0..chars.len()
            invariant
                cs == chars@,
                string_views(grouped@) == lex_state(cs.take(i as int)).0,
                temp@ == lex_state(cs.take(i as int)).1,
        {
            let c = chars[i];
            proof {
                assert(cs.take(i + 1).drop_last() =~= cs.take(i as int));
            }
            if Evaluator::is_operator(&c) {
                if temp.len() > 0 {
                    let symbol = string_from_chars(&temp);
                    proof {
                        lemma_string_views_push(grouped@, symbol);
                    }
                    grouped.push(symbol);
                    temp = Vec::new();
                }
                let single = vec![c];
                let symbol = string_from_chars(&single);
                proof {
                    lemma_string_views_push(grouped@, symbol);
                    assert(single@ =~= seq![c]);
                }
                grouped.push(symbol);
            } else {
                temp.push(c);
            }
        }
        proof {
            assert(cs.take(cs.len() as int) =~= cs);
        }
        if temp.len() > 0 {
            let symbol = string_from_chars(&temp);
            proof {
                lemma_string_views_push(grouped@, symbol);
            }
            grouped.push(symbol);
        }
        grouped
    }

    /// Whether `token` is one of the four operator characters.
    pub fn is_operator(token: &char) -> (r: bool)
        ensures
            r == is_operator_char(*token),
    {
        let c = *token;
        c == '+' || c == '-' || c == '*' || c == '/'
    }
}

} // verus!
