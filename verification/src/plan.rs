use vstd::prelude::*;
use crate::error::EvalError;
use crate::token::{is_numeric, well_formed, Lexeme};

verus! {

/// A decimal digit.
pub open spec fn is_digit(c: char) -> bool {
    '0' <= c && c <= '9'
}

/// One of the four operators that can be applied to two operands.
pub open spec fn is_arithmetic(op: char) -> bool {
    op == '+' || op == '-' || op == '*' || op == '/'
}

/// Text that denotes a number: digits and points only, at least one digit,
/// and no second point.
pub open spec fn is_number(text: Seq<char>) -> bool {
    &&& forall|i: int| 0 <= i < text.len() ==> is_numeric(#[trigger] text[i])
    &&& exists|i: int| 0 <= i < text.len() && is_digit(#[trigger] text[i])
    &&& forall|i: int, j: int|
        0 <= i < j < text.len() ==> !(#[trigger] text[i] == '.' && #[trigger] text[j] == '.')
}

/// Whether the lexeme is pushed as an operand: it is the text of a number.
pub open spec fn is_operand(lexeme: Lexeme) -> bool {
    lexeme is Number && is_number(lexeme->Number_0)
}

/// The symbol under which a lexeme that is no operand goes to the operator
/// stack: the operator itself, or the first character of text that denotes no
/// number.
pub open spec fn symbol_of(lexeme: Lexeme) -> char
    recommends
        well_formed(lexeme),
{
    match lexeme {
        Lexeme::Number(text) => text[0],
        Lexeme::Operator(symbol) => symbol,
    }
}

/// Binding strength of an operator symbol: additive operators bind loosest,
/// multiplicative ones tighter, and every other symbol has no strength at all.
pub open spec fn spec_precedence(op: char) -> int {
    if op == '+' || op == '-' {
        1
    } else if op == '*' || op == '/' {
        2
    } else {
        0
    }
}

/// One action on the operand stack.
pub enum Step {
    /// Push the value that the text denotes.
    Push(Seq<char>),
    /// Replace the two topmost operands `a` (below) and `b` (on top) by
    /// `a op b`.
    Apply(char),
}

/// The evaluator between two tokens, with the operands left abstract: the
/// steps taken on the operand stack so far, its height, the operator stack
/// (top last), and the error that stopped the evaluation, if one did.
pub struct Machine {
    pub steps: Seq<Step>,
    pub depth: nat,
    pub operators: Seq<char>,
    pub fault: Option<EvalError>,
}

/// What an evaluation does, whatever the operands are: the steps it takes on
/// the operand stack, in order, and the error it ends with after them, if any.
/// Without a fault the last step leaves exactly one operand, which is the
/// result.
pub struct Plan {
    pub steps: Seq<Step>,
    pub fault: Option<EvalError>,
}

/// The machine before the first token.
pub open spec fn start() -> Machine {
    Machine { steps: Seq::empty(), depth: 0, operators: Seq::empty(), fault: None }
}

/// Applying `op`: it needs two operands and must be arithmetic.
pub open spec fn apply(m: Machine, op: char) -> Machine {
    if m.fault is Some {
        m
    } else if m.depth < 2 {
        Machine { fault: Some(EvalError::InsufficientOperands), ..m }
    } else if !is_arithmetic(op) {
        Machine { fault: Some(EvalError::UnknownOperator), ..m }
    } else {
        Machine { steps: m.steps.push(Step::Apply(op)), depth: (m.depth - 1) as nat, ..m }
    }
}

/// Pops and applies operators from the top of the stack for as long as they
/// bind at least as strongly as `floor`.
pub open spec fn unwind(m: Machine, floor: int) -> Machine
    decreases m.operators.len(),
{
    if m.fault is Some || m.operators.len() == 0 || spec_precedence(m.operators.last()) < floor {
        m
    } else {
        unwind(apply(Machine { operators: m.operators.drop_last(), ..m }, m.operators.last()), floor)
    }
}

/// The machine after one more lexeme: an operand is pushed; any other lexeme
/// first unwinds the operators that bind at least as strongly as its symbol,
/// which then goes on the operator stack.
pub open spec fn feed(m: Machine, lexeme: Lexeme) -> Machine {
    if m.fault is Some {
        m
    } else if is_operand(lexeme) {
        Machine { steps: m.steps.push(Step::Push(lexeme->Number_0)), depth: m.depth + 1, ..m }
    } else {
        let r = unwind(m, spec_precedence(symbol_of(lexeme)));
        if r.fault is Some {
            r
        } else {
            Machine { operators: r.operators.push(symbol_of(lexeme)), ..r }
        }
    }
}

/// The machine after the first `n` lexemes.
pub open spec fn after(lexemes: Seq<Lexeme>, n: nat) -> Machine
    decreases n,
{
    if n == 0 {
        start()
    } else {
        feed(after(lexemes, (n - 1) as nat), lexemes[n - 1])
    }
}

/// The end of an evaluation: every operator left is applied, and exactly one
/// operand must then be there. None is an incomplete expression, and so is
/// more than one: operands that no operator has joined are not dropped in
/// favour of the one on top.
pub open spec fn finish(m: Machine) -> Plan {
    let d = unwind(m, 0);
    if d.fault is None && d.depth != 1 {
        Plan { steps: d.steps, fault: Some(EvalError::IncompleteExpression) }
    } else {
        Plan { steps: d.steps, fault: d.fault }
    }
}

/// The plan of evaluating a sequence of lexemes.
pub open spec fn plan(lexemes: Seq<Lexeme>) -> Plan {
    finish(after(lexemes, lexemes.len()))
}

/// `later` continues `earlier`: it has taken the same steps first, and where
/// `earlier` had stopped on a fault, nothing was added.
pub open spec fn continues(earlier: Machine, later: Machine) -> bool {
    &&& earlier.steps.len() <= later.steps.len()
    &&& later.steps.take(earlier.steps.len() as int) == earlier.steps
    &&& earlier.fault is Some ==> later.steps == earlier.steps && later.fault == earlier.fault
}

/// The plan ends what the machine began.
pub open spec fn concludes(earlier: Machine, end: Plan) -> bool {
    &&& earlier.steps.len() <= end.steps.len()
    &&& end.steps.take(earlier.steps.len() as int) == earlier.steps
    &&& earlier.fault is Some ==> end.steps == earlier.steps && end.fault == earlier.fault
}

/// Applying an operator adds to the steps or stops on a fault.
pub proof fn lemma_apply_continues(m: Machine, op: char)
    ensures
        continues(m, apply(m, op)),
{
    assert(apply(m, op).steps.take(m.steps.len() as int) =~= m.steps);
}

/// What continues a continuation continues the beginning.
pub proof fn lemma_continues_transitive(a: Machine, b: Machine, c: Machine)
    requires
        continues(a, b),
        continues(b, c),
    ensures
        continues(a, c),
{
    assert(c.steps.take(a.steps.len() as int) =~= c.steps.take(b.steps.len() as int).take(
        a.steps.len() as int,
    ));
}

/// Unwinding adds to the steps or stops on a fault.
pub proof fn lemma_unwind_continues(m: Machine, floor: int)
    ensures
        continues(m, unwind(m, floor)),
    decreases m.operators.len(),
{
    if m.fault is Some || m.operators.len() == 0 || spec_precedence(m.operators.last()) < floor {
        assert(m.steps.take(m.steps.len() as int) =~= m.steps);
    } else {
        let popped = Machine { operators: m.operators.drop_last(), ..m };
        let next = apply(popped, m.operators.last());
        lemma_apply_continues(popped, m.operators.last());
        lemma_unwind_continues(next, floor);
        lemma_continues_transitive(m, next, unwind(next, floor));
    }
}

/// A lexeme adds to the steps or stops on a fault.
pub proof fn lemma_feed_continues(m: Machine, lexeme: Lexeme)
    ensures
        continues(m, feed(m, lexeme)),
{
    assert(m.steps.take(m.steps.len() as int) =~= m.steps);
    if m.fault is None {
        if is_operand(lexeme) {
            assert(feed(m, lexeme).steps.take(m.steps.len() as int) =~= m.steps);
        } else {
            lemma_unwind_continues(m, spec_precedence(symbol_of(lexeme)));
        }
    }
}

/// The machine after more lexemes continues the machine after fewer.
pub proof fn lemma_after_continues(lexemes: Seq<Lexeme>, i: nat, j: nat)
    requires
        i <= j,
    ensures
        continues(after(lexemes, i), after(lexemes, j)),
    decreases j,
{
    if i == j {
        let m = after(lexemes, i);
        assert(m.steps.take(m.steps.len() as int) =~= m.steps);
    } else {
        lemma_after_continues(lexemes, i, (j - 1) as nat);
        lemma_feed_continues(after(lexemes, (j - 1) as nat), lexemes[j - 1]);
        lemma_continues_transitive(
            after(lexemes, i),
            after(lexemes, (j - 1) as nat),
            after(lexemes, j),
        );
    }
}

/// The end of an evaluation concludes whatever led up to it.
pub proof fn lemma_finish_concludes(earlier: Machine, m: Machine)
    requires
        continues(earlier, m),
    ensures
        concludes(earlier, finish(m)),
{
    lemma_unwind_continues(m, 0);
    lemma_continues_transitive(earlier, m, unwind(m, 0));
}

/// Whatever the machine has done after `n` lexemes is the beginning of the
/// plan, and a fault it has met is the plan's fault.
pub proof fn lemma_plan_concludes(lexemes: Seq<Lexeme>, n: nat)
    requires
        n <= lexemes.len(),
    ensures
        concludes(after(lexemes, n), plan(lexemes)),
{
    lemma_after_continues(lexemes, n, lexemes.len());
    lemma_finish_concludes(after(lexemes, n), after(lexemes, lexemes.len()));
}

/// The lexeme goes to the operator stack under a symbol that is none of
/// `+ - * /`: a parenthesis, or text of digits and points that denotes no
/// number.
pub open spec fn is_stranger(lexeme: Lexeme) -> bool {
    !is_operand(lexeme) && !is_arithmetic(symbol_of(lexeme))
}

/// The machine has stopped on a fault or will: a symbol that cannot be
/// applied waits on the operator stack. A fault met so far is one of the two
/// that applying an operator can give.
pub open spec fn doomed(m: Machine) -> bool {
    &&& m.fault is Some || exists|j: int|
        0 <= j < m.operators.len() && !is_arithmetic(#[trigger] m.operators[j])
    &&& fault_of_applying(m.fault)
}

/// No fault, or one of the two that applying an operator can give.
pub open spec fn fault_of_applying(fault: Option<EvalError>) -> bool {
    fault is None || fault == Some(EvalError::InsufficientOperands) || fault == Some(
        EvalError::UnknownOperator,
    )
}

/// Unwinding meets no fault but those of applying an operator.
proof fn lemma_unwind_faults(m: Machine, floor: int)
    requires
        fault_of_applying(m.fault),
    ensures
        fault_of_applying(unwind(m, floor).fault),
    decreases m.operators.len(),
{
    if !(m.fault is Some || m.operators.len() == 0 || spec_precedence(m.operators.last())
        < floor) {
        let popped = Machine { operators: m.operators.drop_last(), ..m };
        lemma_unwind_faults(apply(popped, m.operators.last()), floor);
    }
}

/// The machine meets no fault but those of applying an operator.
proof fn lemma_after_faults(lexemes: Seq<Lexeme>, n: nat)
    requires
        n <= lexemes.len(),
    ensures
        fault_of_applying(after(lexemes, n).fault),
    decreases n,
{
    if n > 0 {
        let m = after(lexemes, (n - 1) as nat);
        lemma_after_faults(lexemes, (n - 1) as nat);
        lemma_unwind_faults(m, spec_precedence(symbol_of(lexemes[n - 1])));
    }
}

/// A symbol that cannot be applied leaves the operator stack only through a
/// fault.
proof fn lemma_unwind_doomed(m: Machine, floor: int)
    requires
        doomed(m),
    ensures
        doomed(unwind(m, floor)),
    decreases m.operators.len(),
{
    if !(m.fault is Some || m.operators.len() == 0 || spec_precedence(m.operators.last())
        < floor) {
        let popped = Machine { operators: m.operators.drop_last(), ..m };
        let next = apply(popped, m.operators.last());
        let j = choose|j: int|
            0 <= j < m.operators.len() && !is_arithmetic(#[trigger] m.operators[j]);
        if next.fault is None {
            assert(j < m.operators.len() - 1);
            assert(!is_arithmetic(next.operators[j]));
        }
        lemma_unwind_doomed(next, floor);
    }
}

/// At the end no symbol is left waiting.
proof fn lemma_unwind_all(m: Machine)
    ensures
        unwind(m, 0).fault is Some || unwind(m, 0).operators.len() == 0,
    decreases m.operators.len(),
{
    if !(m.fault is Some || m.operators.len() == 0) {
        let popped = Machine { operators: m.operators.drop_last(), ..m };
        lemma_unwind_all(apply(popped, m.operators.last()));
    }
}

/// Once doomed, the machine stays so, and a stranger dooms it.
proof fn lemma_feed_doomed(m: Machine, lexeme: Lexeme)
    requires
        fault_of_applying(m.fault),
        doomed(m) || is_stranger(lexeme),
    ensures
        doomed(feed(m, lexeme)),
{
    let next = feed(m, lexeme);
    if m.fault is None {
        if is_operand(lexeme) {
            let j = choose|j: int|
                0 <= j < m.operators.len() && !is_arithmetic(#[trigger] m.operators[j]);
            assert(!is_arithmetic(next.operators[j]));
        } else {
            let symbol = symbol_of(lexeme);
            let r = unwind(m, spec_precedence(symbol));
            lemma_unwind_faults(m, spec_precedence(symbol));
            if r.fault is None {
                if is_stranger(lexeme) {
                    assert(!is_arithmetic(next.operators[r.operators.len() as int]));
                } else {
                    lemma_unwind_doomed(m, spec_precedence(symbol));
                    let j = choose|j: int|
                        0 <= j < r.operators.len() && !is_arithmetic(#[trigger] r.operators[j]);
                    assert(!is_arithmetic(next.operators[j]));
                }
            }
        }
    }
}

/// After a stranger the machine is doomed.
proof fn lemma_after_doomed(lexemes: Seq<Lexeme>, at: int, n: nat)
    requires
        0 <= at < n <= lexemes.len(),
        is_stranger(lexemes[at]),
    ensures
        doomed(after(lexemes, n)),
    decreases n,
{
    lemma_after_faults(lexemes, (n - 1) as nat);
    if at < n - 1 {
        lemma_after_doomed(lexemes, at, (n - 1) as nat);
    }
    lemma_feed_doomed(after(lexemes, (n - 1) as nat), lexemes[n - 1]);
}

/// Nothing groups, and nothing is skipped: a sequence that holds a
/// parenthesis, or text of digits and points that denotes no number, ends in
/// an error, whatever stands around it. The symbol is applied like an
/// operator sooner or later, and the error is that of the first operator
/// that cannot be applied: too few operands, or no operator at all.
pub proof fn lemma_stranger_faults(lexemes: Seq<Lexeme>, at: int)
    requires
        0 <= at < lexemes.len(),
        is_stranger(lexemes[at]),
    ensures
        plan(lexemes).fault == Some(EvalError::InsufficientOperands) || plan(lexemes).fault
            == Some(EvalError::UnknownOperator),
{
    let m = after(lexemes, lexemes.len());
    lemma_after_doomed(lexemes, at, lexemes.len());
    lemma_unwind_doomed(m, 0);
    lemma_unwind_all(m);
}

/// Operands with no operator among them are pushed one by one.
proof fn lemma_after_operands(lexemes: Seq<Lexeme>, n: nat)
    requires
        n <= lexemes.len(),
        forall|i: int| 0 <= i < lexemes.len() ==> is_operand(#[trigger] lexemes[i]),
    ensures
        after(lexemes, n).fault is None,
        after(lexemes, n).depth == n,
        after(lexemes, n).operators.len() == 0,
        forall|k: int|
            0 <= k < after(lexemes, n).steps.len() ==> after(lexemes, n).steps[k] is Push,
    decreases n,
{
    if n > 0 {
        lemma_after_operands(lexemes, (n - 1) as nat);
        assert(is_operand(lexemes[n - 1]));
    }
}

/// Operands that no operator joins give no result: a sequence of operands
/// alone is an incomplete expression, unless it is a single operand.
pub proof fn lemma_operands_alone(lexemes: Seq<Lexeme>)
    requires
        forall|i: int| 0 <= i < lexemes.len() ==> is_operand(#[trigger] lexemes[i]),
    ensures
        plan(lexemes).fault == if lexemes.len() == 1 {
            None
        } else {
            Some(EvalError::IncompleteExpression)
        },
        forall|k: int| 0 <= k < plan(lexemes).steps.len() ==> plan(lexemes).steps[k] is Push,
{
    lemma_after_operands(lexemes, lexemes.len());
}

} // verus!
