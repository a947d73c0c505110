use vstd::prelude::*;

use crate::lex::{
    is_whitespace, lex_seq, models, precedence_of, rank, LexerError, Operator, Precedence, Token,
    TokenModel,
};

verus! {

/// The expression that evaluating a token sequence reduces to. A leaf names
/// a number token by its position in the sequence; an inner node applies an
/// arithmetic operator to a left and a right operand.
#[derive(Debug, PartialEq, Eq)]
pub enum Expr {
    Leaf(usize),
    Binary(Operator, Box<Expr>, Box<Expr>),
}

/// Why a token sequence does not reduce to a single expression.
#[derive(Debug, Clone, Copy, PartialEq, Eq, Structural)]
pub enum EvalError {
    /// A closing parenthesis without an opening one, or the other way round.
    UnbalancedParentheses,
    /// An operator found fewer than two operands on the value stack.
    MissingOperand,
    /// More than one value is left once every operator has been applied.
    MissingOperator,
}

/// The value stack and the operator stack, tops at the end.
pub struct Stacks {
    pub values: Seq<Expr>,
    pub ops: Seq<Operator>,
}

pub open spec fn empty_stacks() -> Stacks {
    Stacks { values: Seq::empty(), ops: Seq::empty() }
}

/// One reduction: the top operator is applied to the two top values, the
/// lower one as its left operand, and the result replaces them.
pub open spec fn reduce(st: Stacks) -> Result<Stacks, EvalError>
    recommends
        st.ops.len() > 0,
{
    let n = st.values.len();
    if n < 2 {
        Err(EvalError::MissingOperand)
    } else {
        let node = Expr::Binary(st.ops.last(), Box::new(st.values[n - 2]), Box::new(st.values[n - 1]));
        Ok(
            Stacks {
                values: st.values.drop_last().drop_last().push(node),
                ops: st.ops.drop_last(),
            },
        )
    }
}

/// A closing parenthesis: reduce down to the nearest opening one, then drop it.
pub open spec fn close_group(st: Stacks) -> Result<Stacks, EvalError>
    decreases st.ops.len(),
{
    if st.ops.len() == 0 {
        Err(EvalError::UnbalancedParentheses)
    } else if st.ops.last() == Operator::LeftParenthesis {
        Ok(Stacks { values: st.values, ops: st.ops.drop_last() })
    } else if st.values.len() < 2 {
        Err(EvalError::MissingOperand)
    } else {
        close_group(reduce(st)->Ok_0)
    }
}

/// An arithmetic operator: reduce while the top operator binds at least as
/// tightly, then push the new one.
pub open spec fn yield_to(st: Stacks, op: Operator) -> Result<Stacks, EvalError>
    decreases st.ops.len(),
{
    if st.ops.len() > 0 && rank(precedence_of(st.ops.last())) >= rank(precedence_of(op)) {
        if st.values.len() < 2 {
            Err(EvalError::MissingOperand)
        } else {
            yield_to(reduce(st)->Ok_0, op)
        }
    } else {
        Ok(Stacks { values: st.values, ops: st.ops.push(op) })
    }
}

/// The stacks after the token `t`, found at position `i`.
pub open spec fn step(st: Stacks, t: TokenModel, i: usize) -> Result<Stacks, EvalError> {
    match t {
        TokenModel::Number(_) => Ok(Stacks { values: st.values.push(Expr::Leaf(i)), ops: st.ops }),
        TokenModel::Operator(Operator::LeftParenthesis) => Ok(
            Stacks { values: st.values, ops: st.ops.push(Operator::LeftParenthesis) },
        ),
        TokenModel::Operator(Operator::RightParenthesis) => close_group(st),
        TokenModel::Operator(op) => yield_to(st, op),
    }
}

/// The stacks after the first `n` tokens.
pub open spec fn run(ts: Seq<TokenModel>, n: nat) -> Result<Stacks, EvalError>
    recommends
        n <= ts.len(),
    decreases n,
{
    if n == 0 {
        Ok(empty_stacks())
    } else {
        match run(ts, (n - 1) as nat) {
            Ok(st) => step(st, ts[n - 1], (n - 1) as usize),
            Err(e) => Err(e),
        }
    }
}

/// After the last token: reduce until no operator is left; what remains on the
/// value stack is the result, if there is exactly one value, or none if there is none.
pub open spec fn drain(st: Stacks) -> Result<Option<Expr>, EvalError>
    decreases st.ops.len(),
{
    if st.ops.len() == 0 {
        if st.values.len() == 0 {
            Ok(None)
        } else if st.values.len() == 1 {
            Ok(Some(st.values[0]))
        } else {
            Err(EvalError::MissingOperator)
        }
    } else if st.ops.last() == Operator::LeftParenthesis {
        Err(EvalError::UnbalancedParentheses)
    } else if st.values.len() < 2 {
        Err(EvalError::MissingOperand)
    } else {
        drain(reduce(st)->Ok_0)
    }
}

/// The outcome of evaluating a whole token sequence.
pub open spec fn evaluation(ts: Seq<TokenModel>) -> Result<Option<Expr>, EvalError> {
    match run(ts, ts.len()) {
        Ok(st) => drain(st),
        Err(e) => Err(e),
    }
}

pub open spec fn stacks_of(values: Seq<Expr>, ops: Seq<Operator>) -> Stacks {
    Stacks { values, ops }
}

/// Once a prefix fails, every longer prefix fails with the same error.
proof fn lemma_run_stays_failed(ts: Seq<TokenModel>, n: nat, m: nat)
    requires
        n <= m,
        run(ts, n) is Err,
    ensures
        run(ts, m) == run(ts, n),
    decreases m - n,
{
    if n < m {
        lemma_run_stays_failed(ts, n, (m - 1) as nat);
    }
}

/// Takes the two top values off the stack: the lower one first, as the left operand.
fn pop_value_stack_twice(value_stack: &mut Vec<Expr>) -> (r: (Expr, Expr))
    requires
        old(value_stack).len() >= 2,
    ensures
        final(value_stack)@ == old(value_stack)@.drop_last().drop_last(),
        r.0 == old(value_stack)@[old(value_stack).len() - 2],
        r.1 == old(value_stack)@[old(value_stack).len() - 1],
{
    let right_operand = value_stack.pop().unwrap();
    let left_operand = value_stack.pop().unwrap();
    (left_operand, right_operand)
}

/// Performs one reduction on the stacks.
fn reduce_top(value_stack: &mut Vec<Expr>, operator_stack: &mut Vec<Operator>) -> (r: Result<
    (),
    EvalError,
>)
    requires
        old(operator_stack).len() > 0,
    ensures
        ({
            match reduce(stacks_of(old(value_stack)@, old(operator_stack)@)) {
                Ok(st) => r is Ok && final(value_stack)@ == st.values && final(operator_stack)@
                    == st.ops,
                Err(e) => r == Err::<(), EvalError>(e),
            }
        }),
{
    if value_stack.len() < 2 {
        return Err(EvalError::MissingOperand);
    }
    let op = operator_stack.pop().unwrap();
    let (left_operand, right_operand) = pop_value_stack_twice(value_stack);
    value_stack.push(Expr::Binary(op, Box::new(left_operand), Box::new(right_operand)));
    Ok(())
}

/// Handles a closing parenthesis.
fn close_group_exec(value_stack: &mut Vec<Expr>, operator_stack: &mut Vec<Operator>) -> (r: Result<
    (),
    EvalError,
>)
    ensures
        ({
            match close_group(stacks_of(old(value_stack)@, old(operator_stack)@)) {
                Ok(st) => r is Ok && final(value_stack)@ == st.values && final(operator_stack)@
                    == st.ops,
                Err(e) => r == Err::<(), EvalError>(e),
            }
        }),
{
    let ghost goal = close_group(stacks_of(value_stack@, operator_stack@));
    loop
        invariant
            close_group(stacks_of(value_stack@, operator_stack@)) == goal,
            goal == close_group(stacks_of(old(value_stack)@, old(operator_stack)@)),
        decreases operator_stack.len(),
    {
        if operator_stack.len() == 0 {
            return Err(EvalError::UnbalancedParentheses);
        }
        let top = operator_stack[operator_stack.len() - 1];
        if top == Operator::LeftParenthesis {
            operator_stack.pop();
            return Ok(());
        }
        let reduced = reduce_top(value_stack, operator_stack);
        if reduced.is_err() {
            return reduced;
        }
    }
}

/// Handles an arithmetic operator.
fn yield_to_exec(value_stack: &mut Vec<Expr>, operator_stack: &mut Vec<Operator>, op: Operator) -> (r:
    Result<(), EvalError>)
    ensures
        ({
            match yield_to(stacks_of(old(value_stack)@, old(operator_stack)@), op) {
                Ok(st) => r is Ok && final(value_stack)@ == st.values && final(operator_stack)@
                    == st.ops,
                Err(e) => r == Err::<(), EvalError>(e),
            }
        }),
{
    let ghost goal = yield_to(stacks_of(value_stack@, operator_stack@), op);
    let p = op.precedence();
    loop
        invariant
            yield_to(stacks_of(value_stack@, operator_stack@), op) == goal,
            goal == yield_to(stacks_of(old(value_stack)@, old(operator_stack)@), op),
            p == precedence_of(op),
        ensures
            goal == Ok::<Stacks, EvalError>(stacks_of(value_stack@, operator_stack@.push(op))),
        decreases operator_stack.len(),
    {
        if operator_stack.len() == 0 {
            break;
        }
        let top = operator_stack[operator_stack.len() - 1];
        if !binds_at_least(top.precedence(), p) {
            break;
        }
        let reduced = reduce_top(value_stack, operator_stack);
        if reduced.is_err() {
            return reduced;
        }
    }
    operator_stack.push(op);
    Ok(())
}

/// Whether a precedence `a` is at least `b`, with no precedence below every level.
fn binds_at_least(a: Option<Precedence>, b: Option<Precedence>) -> (r: bool)
    ensures
        r == (rank(a) >= rank(b)),
{
    match (a, b) {
        (_, None) => true,
        (None, Some(_)) => false,
        (Some(Precedence::High), Some(_)) => true,
        (Some(Precedence::Low), Some(Precedence::Low)) => true,
        (Some(Precedence::Low), Some(Precedence::High)) => false,
    }
}

/// Applies the operators left at the end and takes the result off the value stack.
fn drain_exec(value_stack: &mut Vec<Expr>, operator_stack: &mut Vec<Operator>) -> (r: Result<
    Option<Expr>,
    EvalError,
>)
    ensures
        r == drain(stacks_of(old(value_stack)@, old(operator_stack)@)),
{
    let ghost goal = drain(stacks_of(value_stack@, operator_stack@));
    while operator_stack.len() > 0
        invariant
            drain(stacks_of(value_stack@, operator_stack@)) == goal,
            goal == drain(stacks_of(old(value_stack)@, old(operator_stack)@)),
        decreases operator_stack.len(),
    {
        let top = operator_stack[operator_stack.len() - 1];
        if top == Operator::LeftParenthesis {
            return Err(EvalError::UnbalancedParentheses);
        }
        let reduced = reduce_top(value_stack, operator_stack);
        if reduced.is_err() {
            return Err(EvalError::MissingOperand);
        }
    }
    if value_stack.len() == 0 {
        Ok(None)
    } else if value_stack.len() == 1 {
        Ok(value_stack.pop())
    } else {
        Err(EvalError::MissingOperator)
    }
}

/// Evaluates a token sequence with the two-stack shunting-yard algorithm. The
/// result is the expression that the reductions build, `None` where no value
/// at all is left (as for an empty sequence), or the error that stopped it.
pub fn evaluate(tokens: &Vec<Token>) -> (r: Result<Option<Expr>, EvalError>)
    ensures
        r == evaluation(models(tokens@)),
{
    let ghost ts = models(tokens@);
    let mut value_stack: Vec<Expr> = Vec::new();
    let mut operator_stack: Vec<Operator> = Vec::new();
    let mut i: usize = 0;
    while i < tokens.len()
        invariant
            ts == models(tokens@),
            i <= tokens.len(),
            run(ts, i as nat) == Ok::<Stacks, EvalError>(stacks_of(value_stack@, operator_stack@)),
        decreases tokens.len() - i,
    {
        assert(ts[i as int] == tokens@[i as int]@);
        let outcome = match &tokens[i] {
            Token::Number(_) => {
                value_stack.push(Expr::Leaf(i));
                Ok(())
            },
            Token::Operator(Operator::LeftParenthesis) => {
                operator_stack.push(Operator::LeftParenthesis);
                Ok(())
            },
            Token::Operator(Operator::RightParenthesis) => close_group_exec(
                &mut value_stack,
                &mut operator_stack,
            ),
            Token::Operator(op) => yield_to_exec(&mut value_stack, &mut operator_stack, *op),
        };
        match outcome {
            Ok(()) => {},
            Err(e) => {
                proof {
                    lemma_run_stays_failed(ts, (i + 1) as nat, ts.len());
                }
                return Err(e);
            },
        }
        i = i + 1;
    }
    assert(ts.len() == i);
    drain_exec(&mut value_stack, &mut operator_stack)
}

/// A token after which an operator or a closing parenthesis is expected.
pub open spec fn ends_operand(t: TokenModel) -> bool {
    match t {
        TokenModel::Number(_) => true,
        TokenModel::Operator(op) => op == Operator::RightParenthesis,
    }
}

/// A token that can begin an operand.
pub open spec fn starts_operand(t: TokenModel) -> bool {
    match t {
        TokenModel::Number(_) => true,
        TokenModel::Operator(op) => op == Operator::LeftParenthesis,
    }
}

/// Opening parentheses minus closing ones.
pub open spec fn paren_depth(ts: Seq<TokenModel>) -> int
    decreases ts.len(),
{
    if ts.len() == 0 {
        0
    } else {
        paren_depth(ts.drop_last()) + match ts.last() {
            TokenModel::Operator(Operator::LeftParenthesis) => 1int,
            TokenModel::Operator(Operator::RightParenthesis) => -1int,
            _ => 0int,
        }
    }
}

/// A well-formed expression: it begins with an operand and ends with one,
/// an operator or a closing parenthesis follows each operand and an operand
/// follows everything else, and the parentheses are balanced.
pub open spec fn is_expression(ts: Seq<TokenModel>) -> bool {
    &&& ts.len() > 0
    &&& starts_operand(ts[0])
    &&& ends_operand(ts.last())
    &&& forall|i: int|
        0 <= i < ts.len() - 1 ==> if ends_operand(#[trigger] ts[i]) {
            !starts_operand(ts[i + 1])
        } else {
            starts_operand(ts[i + 1])
        }
    &&& forall|n: int| 0 <= n <= ts.len() ==> paren_depth(#[trigger] ts.take(n)) >= 0
    &&& paren_depth(ts) == 0
}

/// The opening parentheses on an operator stack.
pub open spec fn paren_count(os: Seq<Operator>) -> nat
    decreases os.len(),
{
    if os.len() == 0 {
        0
    } else {
        paren_count(os.drop_last()) + if os.last() == Operator::LeftParenthesis {
            1nat
        } else {
            0nat
        }
    }
}

/// The operators other than opening parentheses on an operator stack.
pub open spec fn binary_count(os: Seq<Operator>) -> nat
    decreases os.len(),
{
    if os.len() == 0 {
        0
    } else {
        binary_count(os.drop_last()) + if os.last() == Operator::LeftParenthesis {
            0nat
        } else {
            1nat
        }
    }
}

/// The tokens that an expression tree reads as, in order, its leaves taken from `ts`.
pub open spec fn infix(e: Expr, ts: Seq<TokenModel>) -> Seq<TokenModel>
    decreases e,
{
    match e {
        Expr::Leaf(i) => seq![ts[i as int]],
        Expr::Binary(op, l, r) => infix(*l, ts) + seq![TokenModel::Operator(op)] + infix(*r, ts),
    }
}

/// A token sequence with its parentheses left out.
pub open spec fn strip_parens(ts: Seq<TokenModel>) -> Seq<TokenModel>
    decreases ts.len(),
{
    if ts.len() == 0 {
        Seq::empty()
    } else if ts.last() == TokenModel::Operator(Operator::LeftParenthesis) || ts.last()
        == TokenModel::Operator(Operator::RightParenthesis) {
        strip_parens(ts.drop_last())
    } else {
        strip_parens(ts.drop_last()).push(ts.last())
    }
}

/// The operators on a stack other than opening parentheses.
pub open spec fn binaries(os: Seq<Operator>) -> Seq<Operator>
    decreases os.len(),
{
    if os.len() == 0 {
        Seq::empty()
    } else if os.last() == Operator::LeftParenthesis {
        binaries(os.drop_last())
    } else {
        binaries(os.drop_last()).push(os.last())
    }
}

/// Values and pending operators read alternately, from the bottom of the stacks.
pub open spec fn interleave(vs: Seq<Expr>, bs: Seq<Operator>, ts: Seq<TokenModel>) -> Seq<
    TokenModel,
>
    decreases vs.len() + bs.len(),
{
    if vs.len() == 0 && bs.len() == 0 {
        Seq::empty()
    } else if vs.len() == bs.len() + 1 {
        interleave(vs.drop_last(), bs, ts) + infix(vs.last(), ts)
    } else if vs.len() == bs.len() && bs.len() > 0 {
        interleave(vs, bs.drop_last(), ts).push(TokenModel::Operator(bs.last()))
    } else {
        Seq::empty()
    }
}

proof fn lemma_binaries_len(os: Seq<Operator>)
    ensures
        binaries(os).len() == binary_count(os),
    decreases os.len(),
{
    if os.len() > 0 {
        lemma_binaries_len(os.drop_last());
    }
}

/// A reduction keeps what the stacks read as.
proof fn lemma_reduce_interleave(st: Stacks, ts: Seq<TokenModel>)
    requires
        st.ops.len() > 0,
        st.ops.last() != Operator::LeftParenthesis,
        st.values.len() == binary_count(st.ops) + 1,
        st.values.len() >= 2,
    ensures
        reduce(st) is Ok,
        interleave(reduce(st)->Ok_0.values, binaries(reduce(st)->Ok_0.ops), ts) == interleave(
            st.values,
            binaries(st.ops),
            ts,
        ),
{
    lemma_binaries_len(st.ops);
    lemma_binaries_len(st.ops.drop_last());
    let n = st.values.len();
    let v = st.values.drop_last().drop_last();
    let a = st.values[n - 2];
    let b = st.values[n - 1];
    let o = st.ops.last();
    let bs = binaries(st.ops.drop_last());
    let node = Expr::Binary(o, Box::new(a), Box::new(b));
    assert(binaries(st.ops) == bs.push(o));
    assert(bs.push(o).drop_last() =~= bs);
    assert(st.values.drop_last() =~= v.push(a));
    assert(v.push(a).drop_last() =~= v);
    assert(v.push(node).drop_last() =~= v);
    let base = interleave(v, bs, ts);
    assert(interleave(st.values, bs.push(o), ts) == interleave(v.push(a), bs.push(o), ts) + infix(
        b,
        ts,
    ));
    assert(interleave(v.push(a), bs.push(o), ts) == interleave(v.push(a), bs, ts).push(
        TokenModel::Operator(o),
    ));
    assert(interleave(v.push(a), bs, ts) == base + infix(a, ts));
    assert(interleave(v.push(node), bs, ts) == base + infix(node, ts));
    assert(infix(node, ts) == infix(a, ts) + seq![TokenModel::Operator(o)] + infix(b, ts));
    assert((base + infix(a, ts)).push(TokenModel::Operator(o)) + infix(b, ts) =~= base + (infix(
        a,
        ts,
    ) + seq![TokenModel::Operator(o)] + infix(b, ts)));
}

/// With one value more than pending operators and an open parenthesis, a
/// closing parenthesis reduces without error and removes that parenthesis.
proof fn lemma_close_group_succeeds(st: Stacks, ts: Seq<TokenModel>)
    requires
        paren_count(st.ops) >= 1,
        st.values.len() == binary_count(st.ops) + 1,
    ensures
        close_group(st) is Ok,
        paren_count(close_group(st)->Ok_0.ops) == paren_count(st.ops) - 1,
        close_group(st)->Ok_0.values.len() == binary_count(close_group(st)->Ok_0.ops) + 1,
        interleave(close_group(st)->Ok_0.values, binaries(close_group(st)->Ok_0.ops), ts)
            == interleave(st.values, binaries(st.ops), ts),
    decreases st.ops.len(),
{
    if st.ops.last() != Operator::LeftParenthesis {
        lemma_reduce_interleave(st, ts);
        lemma_close_group_succeeds(reduce(st)->Ok_0, ts);
    }
}

/// With one value more than pending operators, an arithmetic operator
/// reduces without error and is pushed.
proof fn lemma_yield_to_succeeds(st: Stacks, op: Operator, ts: Seq<TokenModel>)
    requires
        precedence_of(op) is Some,
        st.values.len() == binary_count(st.ops) + 1,
    ensures
        yield_to(st, op) is Ok,
        paren_count(yield_to(st, op)->Ok_0.ops) == paren_count(st.ops),
        yield_to(st, op)->Ok_0.values.len() == binary_count(yield_to(st, op)->Ok_0.ops),
        interleave(yield_to(st, op)->Ok_0.values, binaries(yield_to(st, op)->Ok_0.ops), ts)
            == interleave(st.values, binaries(st.ops), ts).push(TokenModel::Operator(op)),
    decreases st.ops.len(),
{
    if st.ops.len() > 0 && rank(precedence_of(st.ops.last())) >= rank(precedence_of(op)) {
        lemma_reduce_interleave(st, ts);
        lemma_yield_to_succeeds(reduce(st)->Ok_0, op, ts);
    } else {
        let os = st.ops.push(op);
        assert(os.drop_last() =~= st.ops);
        lemma_binaries_len(st.ops);
        assert(binaries(os) == binaries(st.ops).push(op));
        assert(binaries(os).drop_last() =~= binaries(st.ops));
    }
}

/// Without open parentheses and with one value more than pending operators,
/// draining leaves exactly one value.
proof fn lemma_drain_succeeds(st: Stacks, ts: Seq<TokenModel>)
    requires
        paren_count(st.ops) == 0,
        st.values.len() == binary_count(st.ops) + 1,
    ensures
        drain(st) is Ok,
        drain(st)->Ok_0 is Some,
        infix(drain(st)->Ok_0->0, ts) == interleave(st.values, binaries(st.ops), ts),
    decreases st.ops.len(),
{
    if st.ops.len() > 0 {
        lemma_reduce_interleave(st, ts);
        lemma_drain_succeeds(reduce(st)->Ok_0, ts);
    } else {
        let e = st.values[0];
        assert(st.values.drop_last() =~= Seq::<Expr>::empty());
        assert(binaries(st.ops) =~= Seq::<Operator>::empty());
        assert(interleave(Seq::<Expr>::empty(), Seq::<Operator>::empty(), ts) =~= Seq::<
            TokenModel,
        >::empty());
        assert(interleave(st.values, binaries(st.ops), ts) == interleave(
            st.values.drop_last(),
            binaries(st.ops),
            ts,
        ) + infix(e, ts));
        assert(Seq::<TokenModel>::empty() + infix(e, ts) =~= infix(e, ts));
    }
}

/// The stacks after each prefix of a well-formed expression: the open
/// parentheses match the depth reached, and there is one value more than
/// pending operators right after an operand, as many otherwise.
proof fn lemma_run_expression(ts: Seq<TokenModel>, n: nat)
    requires
        is_expression(ts),
        ts.len() <= usize::MAX,
        n <= ts.len(),
    ensures
        run(ts, n) is Ok,
        paren_count(run(ts, n)->Ok_0.ops) == paren_depth(ts.take(n as int)),
        interleave(run(ts, n)->Ok_0.values, binaries(run(ts, n)->Ok_0.ops), ts) == strip_parens(
            ts.take(n as int),
        ),
        run(ts, n)->Ok_0.values.len() == binary_count(run(ts, n)->Ok_0.ops) + if n > 0
            && ends_operand(ts[n - 1]) {
            1nat
        } else {
            0nat
        },
    decreases n,
{
    if n == 0 {
        assert(ts.take(0) =~= Seq::<TokenModel>::empty());
    } else {
        let m = (n - 1) as nat;
        lemma_run_expression(ts, m);
        let st = run(ts, m)->Ok_0;
        let t = ts[m as int];
        assert(ts.take(n as int).drop_last() =~= ts.take(m as int));
        assert(ts.take(n as int).last() == t);
        lemma_binaries_len(st.ops);
        assert(paren_depth(ts.take(n as int)) >= 0);
        if m > 0 {
            assert(ends_operand(ts[m - 1]) ==> !starts_operand(ts[m as int]));
            assert(!ends_operand(ts[m - 1]) ==> starts_operand(ts[m as int]));
        }
        match t {
            TokenModel::Number(_) => {
                let vs = st.values.push(Expr::Leaf(m as usize));
                assert(vs.drop_last() =~= st.values);
                assert(interleave(st.values, binaries(st.ops), ts) + seq![t] =~= interleave(
                    st.values,
                    binaries(st.ops),
                    ts,
                ).push(t));
            },
            TokenModel::Operator(Operator::LeftParenthesis) => {
                assert(st.ops.push(Operator::LeftParenthesis).drop_last() =~= st.ops);
            },
            TokenModel::Operator(Operator::RightParenthesis) => {
                lemma_close_group_succeeds(st, ts);
            },
            TokenModel::Operator(op) => {
                lemma_yield_to_succeeds(st, op, ts);
            },
        }
    }
}

/// Every well-formed expression evaluates without error to a tree, and that
/// tree, read in order, gives back the expression's tokens without its parentheses.
pub proof fn lemma_expression_evaluates(ts: Seq<TokenModel>)
    requires
        is_expression(ts),
        ts.len() <= usize::MAX,
    ensures
        evaluation(ts) is Ok,
        evaluation(ts)->Ok_0 is Some,
        infix(evaluation(ts)->Ok_0->0, ts) == strip_parens(ts),
{
    lemma_run_expression(ts, ts.len());
    assert(ts.take(ts.len() as int) =~= ts);
    lemma_drain_succeeds(run(ts, ts.len())->Ok_0, ts);
}

/// A line of whitespace alone lexes to no token and no error, and evaluating
/// that gives no result, so the line yields no output.
pub proof fn lemma_blank_line(line: Seq<char>)
    requires
        forall|i: int| 0 <= i < line.len() ==> is_whitespace(#[trigger] line[i]),
    ensures
        lex_seq(line) == (Seq::<TokenModel>::empty(), Seq::<LexerError>::empty()),
        evaluation(lex_seq(line).0) == Ok::<Option<Expr>, EvalError>(None),
    decreases line.len(),
{
    if line.len() > 0 {
        assert(is_whitespace(line[0]));
        assert forall|i: int| 0 <= i < line.skip(1).len() implies is_whitespace(
            #[trigger] line.skip(1)[i],
        ) by {
            assert(line.skip(1)[i] == line[i + 1]);
        }
        lemma_blank_line(line.skip(1));
    }
}

} // verus!
