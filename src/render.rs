use vstd::prelude::*;

use crate::eval::evaluation;
use crate::lex::{
    digit_run, is_digit, lemma_digit_run_len, lemma_lex_well_formed, lemma_scan_len, lex_seq, models,
    numeral_len, operator_of, scan, well_formed, Operator, Token, TokenModel,
};

verus! {

/// The character that spells an operator.
pub open spec fn symbol(op: Operator) -> char {
    match op {
        Operator::Add => '+',
        Operator::Div => '/',
        Operator::Mul => '*',
        Operator::Sub => '-',
        Operator::LeftParenthesis => '(',
        Operator::RightParenthesis => ')',
    }
}

/// The text of one token.
pub open spec fn text_of(t: TokenModel) -> Seq<char> {
    match t {
        TokenModel::Number(s) => s,
        TokenModel::Operator(op) => seq![symbol(op)],
    }
}

/// The canonical rendering of a token sequence: the tokens' texts, one space between each two.
pub open spec fn render_seq(ts: Seq<TokenModel>) -> Seq<char>
    decreases ts.len(),
{
    if ts.len() == 0 {
        Seq::empty()
    } else if ts.len() == 1 {
        text_of(ts[0])
    } else {
        render_seq(ts.drop_last()) + seq![' '] + text_of(ts.last())
    }
}

fn symbol_char(op: Operator) -> (r: char)
    ensures
        r == symbol(op),
{
    match op {
        Operator::Add => '+',
        Operator::Div => '/',
        Operator::Mul => '*',
        Operator::Sub => '-',
        Operator::LeftParenthesis => '(',
        Operator::RightParenthesis => ')',
    }
}

/// Writes a token sequence out in canonical form.
pub fn render(tokens: &Vec<Token>) -> (r: Vec<char>)
    ensures
        r@ == render_seq(models(tokens@)),
{
    let ghost ts = models(tokens@);
    let mut out: Vec<char> = Vec::new();
    let mut i: usize = 0;
    while i < tokens.len()
        invariant
            ts == models(tokens@),
            i <= tokens.len(),
            out@ == render_seq(ts.take(i as int)),
        decreases tokens.len() - i,
    {
        let ghost before = out@;
        assert(ts.take(i + 1).drop_last() =~= ts.take(i as int));
        assert(ts[i as int] == tokens@[i as int]@);
        if i > 0 {
            out.push(' ');
        }
        match &tokens[i] {
            Token::Number(n) => {
                let mut j: usize = 0;
                while j < n.text.len()
                    invariant
                        j <= n.text.len(),
                        out@ == (if i > 0 {
                            before + seq![' ']
                        } else {
                            before
                        }) + n.text@.take(j as int),
                    decreases n.text.len() - j,
                {
                    out.push(n.text[j]);
                    assert(n.text@.take(j + 1) =~= n.text@.take(j as int).push(n.text@[j as int]));
                    j = j + 1;
                }
                assert(n.text@.take(j as int) =~= n.text@);
            },
            Token::Operator(op) => {
                out.push(symbol_char(*op));
            },
        }
        assert(out@ =~= render_seq(ts.take(i + 1)));
        i = i + 1;
    }
    assert(ts.take(i as int) =~= ts);
    out
}

/// A space ends the run of digits before it.
proof fn lemma_digit_run_sep(a: Seq<char>, b: Seq<char>)
    ensures
        digit_run(a + seq![' '] + b) == digit_run(a),
    decreases a.len(),
{
    let x = a + seq![' '] + b;
    if a.len() == 0 {
        assert(x[0] == ' ');
    } else {
        assert(x[0] == a[0]);
        if is_digit(a[0]) {
            assert(x.drop_first() =~= a.drop_first() + seq![' '] + b);
            lemma_digit_run_sep(a.drop_first(), b);
        }
    }
}

/// A space ends the numeral before it.
proof fn lemma_numeral_len_sep(a: Seq<char>, b: Seq<char>)
    ensures
        numeral_len(a + seq![' '] + b) == numeral_len(a),
{
    let x = a + seq![' '] + b;
    lemma_digit_run_sep(a, b);
    lemma_digit_run_len(a);
    let d = digit_run(a);
    if d < a.len() {
        assert(x[d as int] == a[d as int]);
        if a[d as int] == '.' {
            assert(x.skip((d + 1) as int) =~= a.skip((d + 1) as int) + seq![' '] + b);
            lemma_digit_run_sep(a.skip((d + 1) as int), b);
        }
    } else {
        assert(x[d as int] == ' ');
    }
}

/// Lexing text joined by a space lexes each side on its own.
pub proof fn lemma_lex_sep(a: Seq<char>, b: Seq<char>)
    ensures
        lex_seq(a + seq![' '] + b) == (lex_seq(a).0 + lex_seq(b).0, lex_seq(a).1 + lex_seq(b).1),
    decreases a.len(),
{
    let x = a + seq![' '] + b;
    if a.len() == 0 {
        assert(x[0] == ' ');
        assert(x.skip(1) =~= b);
        assert(lex_seq(a).0 + lex_seq(b).0 =~= lex_seq(b).0);
        assert(lex_seq(a).1 + lex_seq(b).1 =~= lex_seq(b).1);
    } else {
        assert(x[0] == a[0]);
        lemma_scan_len(a);
        lemma_numeral_len_sep(a, b);
        let n = scan(a).1;
        assert(scan(x).1 == n);
        assert(x.take(n as int) =~= a.take(n as int));
        assert(x.skip(n as int) =~= a.skip(n as int) + seq![' '] + b);
        lemma_lex_sep(a.skip(n as int), b);
        let ra = lex_seq(a.skip(n as int));
        let rb = lex_seq(b);
        match scan(a).0 {
            Ok(Some(t)) => {
                assert(seq![t] + (ra.0 + rb.0) =~= (seq![t] + ra.0) + rb.0);
            },
            Ok(None) => {},
            Err(e) => {
                assert(seq![e] + (ra.1 + rb.1) =~= (seq![e] + ra.1) + rb.1);
            },
        }
    }
}

/// The text of a well-formed token lexes back to that token alone.
proof fn lemma_lex_text(t: TokenModel)
    requires
        well_formed(t),
    ensures
        lex_seq(text_of(t)) == (seq![t], Seq::<crate::lex::LexerError>::empty()),
{
    let s = text_of(t);
    lemma_scan_len(s);
    assert(s.skip(scan(s).1 as int) =~= Seq::<char>::empty());
    assert(lex_seq(s.skip(scan(s).1 as int)) == (
        Seq::<TokenModel>::empty(),
        Seq::<crate::lex::LexerError>::empty(),
    ));
    match t {
        TokenModel::Number(n) => {
            assert(n.take(n.len() as int) =~= n);
            assert(seq![t] + Seq::<TokenModel>::empty() =~= seq![t]);
        },
        TokenModel::Operator(op) => {
            assert(operator_of(symbol(op)) == Some(op));
            assert(seq![t] + Seq::<TokenModel>::empty() =~= seq![t]);
        },
    }
}

/// Round trip: lexing the canonical rendering of well-formed tokens gives
/// back the same tokens and no error, so evaluating it gives the same outcome.
pub proof fn lemma_round_trip(ts: Seq<TokenModel>)
    requires
        forall|i: int| 0 <= i < ts.len() ==> well_formed(#[trigger] ts[i]),
    ensures
        lex_seq(render_seq(ts)) == (ts, Seq::<crate::lex::LexerError>::empty()),
        evaluation(lex_seq(render_seq(ts)).0) == evaluation(ts),
    decreases ts.len(),
{
    if ts.len() == 0 {
        assert(lex_seq(Seq::<char>::empty()).0 =~= ts);
    } else if ts.len() == 1 {
        lemma_lex_text(ts[0]);
        assert(seq![ts[0]] =~= ts);
    } else {
        let init = ts.drop_last();
        lemma_round_trip(init);
        lemma_lex_text(ts.last());
        lemma_lex_sep(render_seq(init), text_of(ts.last()));
        assert(init + seq![ts.last()] =~= ts);
        assert(Seq::<crate::lex::LexerError>::empty() + Seq::<crate::lex::LexerError>::empty()
            =~= Seq::<crate::lex::LexerError>::empty());
    }
}

/// Round trip for a line: lexing the canonical rendering of a line's tokens
/// gives back those tokens and no error, so evaluating it gives the same outcome.
pub proof fn lemma_line_round_trip(line: Seq<char>)
    ensures
        lex_seq(render_seq(lex_seq(line).0)) == (
            lex_seq(line).0,
            Seq::<crate::lex::LexerError>::empty(),
        ),
        evaluation(lex_seq(render_seq(lex_seq(line).0)).0) == evaluation(lex_seq(line).0),
{
    lemma_lex_well_formed(line);
    lemma_round_trip(lex_seq(line).0);
}

} // verus!
