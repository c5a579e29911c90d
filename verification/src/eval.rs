use vstd::prelude::*;
use crate::error::EvalError;
use crate::plan::{
    after, apply, concludes, is_arithmetic, is_digit, is_number, is_operand, is_stranger,
    lemma_operands_alone, lemma_plan_concludes, lemma_stranger_faults, lemma_unwind_continues,
    plan, spec_precedence,
    symbol_of, unwind, Machine, Plan, Step,
};
use crate::run::{
    applied, evaluates_to, lemma_one_result, lemma_runs_longer, lemma_runs_on, runs,
    single_valued, step_taken, witnesses,
};
use crate::token::{
    all_well_formed, is_numeric, lemma_scan_well_formed, lemma_space_is_insignificant, lexemes,
    spec_tokenize, tokenize, well_formed, Lexeme, Token,
};

verus! {

/// The binding strength of an operator symbol.
pub fn precedence(op: char) -> (rank: i32)
    ensures
        rank == spec_precedence(op),
{
    match op {
        '+' | '-' => 1,
        '*' | '/' => 2,
        _ => 0,
    }
}

/// Whether `text` denotes a number.
pub fn denotes_number(text: &str) -> (yes: bool)
    ensures
        yes == is_number(text@),
{
    let mut digit_seen = false;
    let mut point_seen = false;
    for c in it: text.chars()
        invariant
            it.seq() == text@,
            forall|j: int| 0 <= j < it.index() ==> is_numeric(#[trigger] text@[j]),
            digit_seen <==> exists|j: int| 0 <= j < it.index() && is_digit(#[trigger] text@[j]),
            point_seen <==> exists|j: int| 0 <= j < it.index() && #[trigger] text@[j] == '.',
            forall|j: int, k: int|
                0 <= j < k < it.index() ==> !(#[trigger] text@[j] == '.' && #[trigger] text@[k]
                    == '.'),
    {
        assert(c == text@[it.index()]);
        if '0' <= c && c <= '9' {
            digit_seen = true;
        } else if c == '.' {
            if point_seen {
                return false;
            }
            point_seen = true;
        } else {
            return false;
        }
    }
    digit_seen
}

impl Token {
    /// The text of the token where it is an operand.
    pub fn as_operand(&self) -> (text: Option<&str>)
        ensures
            text is Some <==> is_operand(self@),
            text is Some ==> self@ == Lexeme::Number(text->0@),
    {
        match self {
            Token::Number(text) => {
                if denotes_number(text.as_str()) {
                    Some(text.as_str())
                } else {
                    None
                }
            },
            Token::Operator(_) => None,
        }
    }

    /// The symbol under which the token goes to the operator stack.
    pub fn symbol(&self) -> (symbol: char)
        requires
            well_formed(self@),
        ensures
            symbol == symbol_of(self@),
    {
        match self {
            Token::Number(text) => text.as_str().get_char(0),
            Token::Operator(symbol) => *symbol,
        }
    }
}

/// Applies `op` to the two topmost operands: `b` is popped first, then `a`,
/// and `a op b` is pushed. Fails where fewer than two operands are there, where
/// a divisor is zero, and where `op` is none of `+ - * /`.
pub fn apply_operator<V, Z, A>(numbers: &mut Vec<V>, op: char, is_zero: &Z, arith: &A) -> (result:
    Result<(), EvalError>) where Z: Fn(&V) -> bool, A: Fn(char, V, V) -> V
    requires
        forall|v: &V| #[trigger] is_zero.requires((v,)),
        forall|o: char, a: V, b: V| is_arithmetic(o) ==> #[trigger] arith.requires((o, a, b)),
    ensures
        old(numbers).len() < 2 ==> result == Err::<(), EvalError>(
            EvalError::InsufficientOperands,
        ) && final(numbers)@ == old(numbers)@,
        old(numbers).len() >= 2 && !is_arithmetic(op) ==> result == Err::<(), EvalError>(
            EvalError::UnknownOperator,
        ) && final(numbers)@ == old(numbers)@.take(old(numbers).len() - 2),
        old(numbers).len() >= 2 && is_arithmetic(op) ==> match result {
            Ok(()) => applied(*is_zero, *arith, op, old(numbers)@, final(numbers)@),
            Err(e) => {
                &&& e == EvalError::DivisionByZero
                &&& op == '/'
                &&& is_zero.ensures((&old(numbers)@[old(numbers).len() - 1],), true)
                &&& final(numbers)@ == old(numbers)@.take(old(numbers).len() - 2)
            },
        },
{
    if numbers.len() < 2 {
        return Err(EvalError::InsufficientOperands);
    }
    let b = numbers.pop().unwrap();
    let a = numbers.pop().unwrap();
    assert(numbers@ =~= old(numbers)@.take(old(numbers).len() - 2));
    if op == '+' || op == '-' || op == '*' {
        numbers.push(arith(op, a, b));
    } else if op == '/' {
        if is_zero(&b) {
            return Err(EvalError::DivisionByZero);
        }
        numbers.push(arith(op, a, b));
    } else {
        return Err(EvalError::UnknownOperator);
    }
    assert(numbers@.drop_last() =~= old(numbers)@.take(old(numbers).len() - 2));
    Ok(())
}

/// The evaluator's two stacks stand where the machine `m` stands, and
/// `stacks` records how the operands got there.
spec fn tracks<V, P, Z, A>(
    parse: P,
    is_zero: Z,
    arith: A,
    m: Machine,
    stacks: Seq<Seq<V>>,
    numbers: Seq<V>,
    operators: Seq<char>,
) -> bool where P: Fn(&str) -> V, Z: Fn(&V) -> bool, A: Fn(char, V, V) -> V {
    &&& m.fault is None
    &&& m.depth == numbers.len()
    &&& m.operators == operators
    &&& runs(parse, is_zero, arith, m.steps, stacks)
    &&& stacks.len() == m.steps.len() + 1
    &&& stacks.last() == numbers
}

/// Pops and applies operators for as long as the one on top binds at least
/// as strongly as `floor`, and hands back the record of the run.
fn unwind_operators<V, P, Z, A>(
    numbers: &mut Vec<V>,
    operators: &mut Vec<char>,
    floor: i32,
    parse: &P,
    is_zero: &Z,
    arith: &A,
    Ghost(m): Ghost<Machine>,
    Ghost(stacks): Ghost<Seq<Seq<V>>>,
) -> (result: Result<Ghost<Seq<Seq<V>>>, EvalError>) where
    P: Fn(&str) -> V,
    Z: Fn(&V) -> bool,
    A: Fn(char, V, V) -> V,

    requires
        tracks(*parse, *is_zero, *arith, m, stacks, old(numbers)@, old(operators)@),
        forall|v: &V| #[trigger] is_zero.requires((v,)),
        forall|o: char, a: V, b: V| is_arithmetic(o) ==> #[trigger] arith.requires((o, a, b)),
    ensures
        match result {
            Ok(record) => tracks(
                *parse,
                *is_zero,
                *arith,
                unwind(m, floor as int),
                record@,
                final(numbers)@,
                final(operators)@,
            ),
            Err(e) => forall|end: Plan| #[trigger]
                concludes(unwind(m, floor as int), end) ==> evaluates_to(
                    *parse,
                    *is_zero,
                    *arith,
                    end,
                    Err::<V, EvalError>(e),
                ),
        },
{
    let ghost mut now = m;
    let ghost mut record = stacks;
    while operators.len() > 0 && precedence(operators[operators.len() - 1]) >= floor
        invariant
            tracks(*parse, *is_zero, *arith, now, record, numbers@, operators@),
            unwind(now, floor as int) == unwind(m, floor as int),
            forall|v: &V| #[trigger] is_zero.requires((v,)),
            forall|o: char, a: V, b: V| is_arithmetic(o) ==> #[trigger] arith.requires((o, a, b)),
        decreases operators.len(),
    {
        let top = operators.pop().unwrap();
        let ghost popped = Machine { operators: now.operators.drop_last(), ..now };
        let ghost next = apply(popped, top);
        match apply_operator(numbers, top, is_zero, arith) {
            Ok(()) => {
                proof {
                    lemma_runs_on(
                        *parse,
                        *is_zero,
                        *arith,
                        now.steps,
                        record,
                        Step::Apply(top),
                        numbers@,
                    );
                    now = next;
                    record = record.push(numbers@);
                }
            },
            Err(e) => {
                proof {
                    lemma_unwind_continues(next, floor as int);
                    assert forall|end: Plan| #[trigger]
                        concludes(unwind(m, floor as int), end) implies evaluates_to(
                        *parse,
                        *is_zero,
                        *arith,
                        end,
                        Err::<V, EvalError>(e),
                    ) by {
                        let reached = unwind(m, floor as int);
                        assert(end.steps.take(now.steps.len() as int) =~= now.steps) by {
                            assert(reached.steps.take(next.steps.len() as int).take(
                                now.steps.len() as int,
                            ) =~= reached.steps.take(now.steps.len() as int));
                            assert(end.steps.take(reached.steps.len() as int).take(
                                now.steps.len() as int,
                            ) =~= end.steps.take(now.steps.len() as int));
                            assert(next.steps.take(now.steps.len() as int) =~= now.steps);
                        }
                        assert(now.steps.take(now.steps.len() as int) =~= now.steps);
                        lemma_runs_longer(*parse, *is_zero, *arith, now.steps, end.steps, record);
                        if next.fault is None {
                            assert(end.steps[now.steps.len() as int] == end.steps.take(
                                reached.steps.len() as int,
                            )[now.steps.len() as int]);
                            assert(reached.steps[now.steps.len() as int] == reached.steps.take(
                                next.steps.len() as int,
                            )[now.steps.len() as int]);
                        }
                        assert(witnesses(
                            *parse,
                            *is_zero,
                            *arith,
                            end,
                            record,
                            Err::<V, EvalError>(e),
                        ));
                    }
                }
                return Err(e);
            },
        }
    }
    Ok(Ghost(record))
}

/// Evaluates a token sequence in one pass over it, with a stack of operands
/// and a stack of operators. An operand is read by `parse` and pushed. Any
/// other token first has the operators applied that wait on top of their
/// stack and bind at least as strongly as it does, and then waits there
/// itself. At the end the operators left are applied, and the one operand
/// then left is the result. Where none is left, or more than one, the
/// expression is incomplete.
///
/// The arithmetic is the caller's: `parse` reads the text of a number,
/// `is_zero` tests a divisor, and `arith` computes `a op b` for an `op` of
/// `+ - * /`.
pub fn evaluate<V, P, Z, A>(tokens: &[Token], parse: P, is_zero: Z, arith: A) -> (result: Result<
    V,
    EvalError,
>) where P: Fn(&str) -> V, Z: Fn(&V) -> bool, A: Fn(char, V, V) -> V
    requires
        all_well_formed(lexemes(tokens@)),
        forall|text: &str| is_number(text@) ==> #[trigger] parse.requires((text,)),
        forall|v: &V| #[trigger] is_zero.requires((v,)),
        forall|o: char, a: V, b: V| is_arithmetic(o) ==> #[trigger] arith.requires((o, a, b)),
    ensures
        evaluates_to(parse, is_zero, arith, plan(lexemes(tokens@)), result),
{
    let ghost all = lexemes(tokens@);
    let mut numbers: Vec<V> = Vec::new();
    let mut operators: Vec<char> = Vec::new();
    let ghost mut record: Seq<Seq<V>> = seq![numbers@];
    let mut i: usize = 0;
    while i < tokens.len()
        invariant
            i <= tokens.len(),
            all == lexemes(tokens@),
            all_well_formed(all),
            tracks(parse, is_zero, arith, after(all, i as nat), record, numbers@, operators@),
            forall|text: &str| is_number(text@) ==> #[trigger] parse.requires((text,)),
            forall|v: &V| #[trigger] is_zero.requires((v,)),
            forall|o: char, a: V, b: V| is_arithmetic(o) ==> #[trigger] arith.requires((o, a, b)),
        decreases tokens.len() - i,
    {
        let ghost m = after(all, i as nat);
        let token = &tokens[i];
        assert(all[i as int] == token@);
        assert(well_formed(all[i as int]));
        match token.as_operand() {
            Some(text) => {
                let value = parse(text);
                let ghost pushed = value;
                numbers.push(value);
                proof {
                    let step = Step::Push(text@);
                    assert(numbers@.drop_last() =~= record.last());
                    assert(parse.ensures((text,), pushed));
                    assert(numbers@.last() == pushed);
                    assert(step_taken(parse, is_zero, arith, step, record.last(), numbers@));
                    lemma_runs_on(parse, is_zero, arith, m.steps, record, step, numbers@);
                    record = record.push(numbers@);
                }
            },
            None => {
                let op = token.symbol();
                match unwind_operators(
                    &mut numbers,
                    &mut operators,
                    precedence(op),
                    &parse,
                    &is_zero,
                    &arith,
                    Ghost(m),
                    Ghost(record),
                ) {
                    Ok(longer) => {
                        operators.push(op);
                        proof {
                            record = longer@;
                        }
                    },
                    Err(e) => {
                        proof {
                            lemma_plan_concludes(all, (i + 1) as nat);
                            assert(concludes(unwind(m, spec_precedence(op)), plan(all)));
                        }
                        return Err(e);
                    },
                }
            },
        }
        i += 1;
    }
    let ghost m = after(all, tokens.len() as nat);
    match unwind_operators(
        &mut numbers,
        &mut operators,
        0,
        &parse,
        &is_zero,
        &arith,
        Ghost(m),
        Ghost(record),
    ) {
        Ok(complete) => {
            proof {
                record = complete@;
            }
        },
        Err(e) => {
            proof {
                assert(unwind(m, 0).steps.take(unwind(m, 0).steps.len() as int) =~= unwind(
                    m,
                    0,
                ).steps);
                assert(concludes(unwind(m, 0), plan(all)));
            }
            return Err(e);
        },
    }
    if numbers.len() != 1 {
        proof {
            assert(witnesses(
                parse,
                is_zero,
                arith,
                plan(all),
                record,
                Err::<V, EvalError>(EvalError::IncompleteExpression),
            ));
        }
        return Err(EvalError::IncompleteExpression);
    }
    let value = numbers.pop().unwrap();
    proof {
        assert(witnesses(parse, is_zero, arith, plan(all), record, Ok::<V, EvalError>(value)));
    }
    Ok(value)
}

/// What evaluating the text `expression` can give: the tokenizer's error, or
/// else what carrying out the plan of its lexemes gives.
pub open spec fn calculates_to<V, P, Z, A>(
    parse: P,
    is_zero: Z,
    arith: A,
    expression: Seq<char>,
    result: Result<V, EvalError>,
) -> bool where P: Fn(&str) -> V, Z: Fn(&V) -> bool, A: Fn(char, V, V) -> V {
    match spec_tokenize(expression) {
        Ok(found) => evaluates_to(parse, is_zero, arith, plan(found), result),
        Err(e) => result == Err::<V, EvalError>(e),
    }
}

/// Evaluates the arithmetic expression that `expression` holds: tokenizes it,
/// then evaluates the tokens with the caller's arithmetic.
pub fn calculate<V, P, Z, A>(expression: &str, parse: P, is_zero: Z, arith: A) -> (result: Result<
    V,
    EvalError,
>) where P: Fn(&str) -> V, Z: Fn(&V) -> bool, A: Fn(char, V, V) -> V
    requires
        forall|text: &str| is_number(text@) ==> #[trigger] parse.requires((text,)),
        forall|v: &V| #[trigger] is_zero.requires((v,)),
        forall|o: char, a: V, b: V| is_arithmetic(o) ==> #[trigger] arith.requires((o, a, b)),
    ensures
        calculates_to(parse, is_zero, arith, expression@, result),
{
    match tokenize(expression) {
        Ok(tokens) => {
            proof {
                lemma_scan_well_formed(expression@, Seq::empty());
            }
            evaluate(tokens.as_slice(), parse, is_zero, arith)
        },
        Err(e) => Err(e),
    }
}

/// Evaluating the same text again gives the same result, where reading,
/// testing for zero and computing each give one result for one argument:
/// nothing is kept from one evaluation to the next.
pub proof fn lemma_same_text_same_result<V, P, Z, A>(
    parse: P,
    is_zero: Z,
    arith: A,
    expression: Seq<char>,
    first: Result<V, EvalError>,
    second: Result<V, EvalError>,
) where P: Fn(&str) -> V, Z: Fn(&V) -> bool, A: Fn(char, V, V) -> V
    requires
        single_valued(parse, is_zero, arith),
        calculates_to(parse, is_zero, arith, expression, first),
        calculates_to(parse, is_zero, arith, expression, second),
    ensures
        first == second,
{
    if let Ok(found) = spec_tokenize(expression) {
        lemma_one_result(parse, is_zero, arith, plan(found), first, second);
    }
}

/// A space that does not part two characters of a number changes nothing:
/// the text with it evaluates to what the text without it evaluates to.
pub proof fn lemma_space_keeps_result<V, P, Z, A>(
    parse: P,
    is_zero: Z,
    arith: A,
    before: Seq<char>,
    after: Seq<char>,
    result: Result<V, EvalError>,
) where P: Fn(&str) -> V, Z: Fn(&V) -> bool, A: Fn(char, V, V) -> V
    requires
        !(before.len() > 0 && is_numeric(before.last()) && after.len() > 0 && is_numeric(after[0])),
    ensures
        calculates_to(parse, is_zero, arith, before + seq![' '] + after, result) == calculates_to(
            parse,
            is_zero,
            arith,
            before + after,
            result,
        ),
{
    lemma_space_is_insignificant(before, after);
}

/// Tokens that hold a parenthesis, or text of digits and points that denotes
/// no number, never evaluate to a result.
pub proof fn lemma_stranger_gives_error<V, P, Z, A>(
    parse: P,
    is_zero: Z,
    arith: A,
    found: Seq<Lexeme>,
    at: int,
    result: Result<V, EvalError>,
) where P: Fn(&str) -> V, Z: Fn(&V) -> bool, A: Fn(char, V, V) -> V
    requires
        0 <= at < found.len(),
        is_stranger(found[at]),
        evaluates_to(parse, is_zero, arith, plan(found), result),
    ensures
        result is Err,
        result->Err_0 == EvalError::InsufficientOperands || result->Err_0
            == EvalError::UnknownOperator || result->Err_0 == EvalError::DivisionByZero,
{
    lemma_stranger_faults(found, at);
}

/// Operands that no operator joins give no result: tokens that are operands
/// only, and not a single one, evaluate to `IncompleteExpression`, whether
/// none is left at the end or more than one.
pub proof fn lemma_operands_alone_give_error<V, P, Z, A>(
    parse: P,
    is_zero: Z,
    arith: A,
    found: Seq<Lexeme>,
    result: Result<V, EvalError>,
) where P: Fn(&str) -> V, Z: Fn(&V) -> bool, A: Fn(char, V, V) -> V
    requires
        forall|i: int| 0 <= i < found.len() ==> is_operand(#[trigger] found[i]),
        found.len() != 1,
        evaluates_to(parse, is_zero, arith, plan(found), result),
    ensures
        result == Err::<V, EvalError>(EvalError::IncompleteExpression),
{
    lemma_operands_alone(found);
}

} // verus!
