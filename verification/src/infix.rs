use vstd::prelude::*;
use crate::plan::{
    after, apply, feed, is_arithmetic, is_operand, plan, spec_precedence, start, unwind,
    Machine, Plan, Step,
};
use crate::error::EvalError;
use crate::run::{evaluates_to, runs, taken_at, witnesses};
use crate::token::Lexeme;

verus! {

/// An arithmetic expression as a tree.
pub enum Expr {
    /// The number that the text denotes.
    Number(Seq<char>),
    /// `left op right`.
    Binary(char, Box<Expr>, Box<Expr>),
}

/// Whether the lexeme is one of the operators `+ - * /`.
pub open spec fn is_operator(lexeme: Lexeme) -> bool {
    lexeme is Operator && is_arithmetic(lexeme->Operator_0)
}

/// Operands and arithmetic operators in turn, with an operand first and last.
pub open spec fn is_infix(lexemes: Seq<Lexeme>) -> bool {
    &&& lexemes.len() % 2 == 1
    &&& forall|i: int|
        0 <= i < lexemes.len() ==> if i % 2 == 0 {
            is_operand(#[trigger] lexemes[i])
        } else {
            is_operator(lexemes[i])
        }
}

/// Position `at` holds the operator that is applied last: none binds more
/// loosely, and none after it binds as loosely.
pub open spec fn is_root(lexemes: Seq<Lexeme>, at: int) -> bool {
    &&& 0 < at < lexemes.len()
    &&& at % 2 == 1
    &&& forall|k: int|
        0 < k < lexemes.len() && k % 2 == 1 ==> spec_precedence(
            (#[trigger] lexemes[k])->Operator_0,
        ) >= spec_precedence(lexemes[at]->Operator_0)
    &&& forall|k: int|
        at < k < lexemes.len() && k % 2 == 1 ==> spec_precedence(
            (#[trigger] lexemes[k])->Operator_0,
        ) > spec_precedence(lexemes[at]->Operator_0)
}

/// The position of the last `+` or `-`, or -1 where there is none.
pub open spec fn last_additive(lexemes: Seq<Lexeme>) -> int
    decreases lexemes.len(),
{
    if lexemes.len() < 3 {
        -1
    } else if spec_precedence(lexemes[lexemes.len() - 2]->Operator_0) == 1 {
        lexemes.len() - 2
    } else {
        last_additive(lexemes.take(lexemes.len() - 2))
    }
}

/// The position of the operator that is applied last: the last `+` or `-`,
/// or, where there is none, the last operator.
pub open spec fn root(lexemes: Seq<Lexeme>) -> int {
    if last_additive(lexemes) >= 0 {
        last_additive(lexemes)
    } else {
        lexemes.len() - 2
    }
}

/// The tree of an infix sequence under the usual rules: `*` and `/` bind
/// tighter than `+` and `-`, and operators that bind alike group from the
/// left.
pub open spec fn tree(lexemes: Seq<Lexeme>) -> Expr
    decreases lexemes.len(),
{
    let at = root(lexemes);
    if 0 < at < lexemes.len() {
        Expr::Binary(
            lexemes[at]->Operator_0,
            Box::new(tree(lexemes.take(at))),
            Box::new(tree(lexemes.skip(at + 1))),
        )
    } else {
        Expr::Number(lexemes[0]->Number_0)
    }
}

/// The steps that compute a tree on a stack: the left operand, the right
/// operand, then the operator.
pub open spec fn postfix(e: Expr) -> Seq<Step>
    decreases e,
{
    match e {
        Expr::Number(text) => seq![Step::Push(text)],
        Expr::Binary(op, left, right) => postfix(*left) + postfix(*right) + seq![Step::Apply(op)],
    }
}

/// The machine after the first `n` lexemes depends on those alone.
proof fn lemma_after_prefix(lexemes: Seq<Lexeme>, k: nat, n: nat)
    requires
        n <= k <= lexemes.len(),
    ensures
        after(lexemes.take(k as int), n) == after(lexemes, n),
    decreases n,
{
    if n > 0 {
        lemma_after_prefix(lexemes, k, (n - 1) as nat);
        assert(lexemes.take(k as int)[n - 1] == lexemes[n - 1]);
    }
}

/// Both sides of an operator of an infix sequence are infix sequences.
proof fn lemma_infix_parts(lexemes: Seq<Lexeme>, at: int)
    requires
        is_infix(lexemes),
        0 < at < lexemes.len(),
        at % 2 == 1,
    ensures
        is_infix(lexemes.take(at)),
        is_infix(lexemes.skip(at + 1)),
{
    let left = lexemes.take(at);
    let right = lexemes.skip(at + 1);
    assert forall|i: int| 0 <= i < left.len() implies if i % 2 == 0 {
        is_operand(#[trigger] left[i])
    } else {
        is_operator(left[i])
    } by {
        assert(left[i] == lexemes[i]);
    }
    assert forall|i: int| 0 <= i < right.len() implies if i % 2 == 0 {
        is_operand(#[trigger] right[i])
    } else {
        is_operator(right[i])
    } by {
        assert(right[i] == lexemes[i + at + 1]);
    }
}

/// Where `last_additive` finds an operator, it is a `+` or `-` and only `*`
/// and `/` follow; where it finds none, there are only `*` and `/`.
proof fn lemma_last_additive(lexemes: Seq<Lexeme>)
    requires
        is_infix(lexemes),
    ensures
        last_additive(lexemes) == -1 || (0 < last_additive(lexemes) < lexemes.len()
            && last_additive(lexemes) % 2 == 1 && spec_precedence(
            lexemes[last_additive(lexemes)]->Operator_0,
        ) == 1),
        forall|k: int|
            last_additive(lexemes) < k < lexemes.len() && k % 2 == 1 ==> spec_precedence(
                (#[trigger] lexemes[k])->Operator_0,
            ) == 2,
    decreases lexemes.len(),
{
    if lexemes.len() >= 3 {
        let n = lexemes.len() - 2;
        assert(is_operator(lexemes[n]));
        if spec_precedence(lexemes[n]->Operator_0) != 1 {
            let shorter = lexemes.take(n);
            lemma_infix_parts(lexemes, n);
            lemma_last_additive(shorter);
            assert forall|k: int|
                last_additive(lexemes) < k < lexemes.len() && k % 2 == 1 implies spec_precedence(
                (#[trigger] lexemes[k])->Operator_0,
            ) == 2 by {
                if k < n {
                    assert(shorter[k] == lexemes[k]);
                }
            }
            if last_additive(shorter) >= 0 {
                assert(shorter[last_additive(shorter)] == lexemes[last_additive(shorter)]);
            }
        }
    }
}

/// The operator at `root` is the one applied last: none binds more loosely,
/// and none after it binds as loosely.
pub proof fn lemma_root_binds_loosest(lexemes: Seq<Lexeme>)
    requires
        is_infix(lexemes),
        lexemes.len() >= 3,
    ensures
        is_root(lexemes, root(lexemes)),
{
    lemma_last_additive(lexemes);
    let at = root(lexemes);
    assert forall|k: int| 0 < k < lexemes.len() && k % 2 == 1 implies spec_precedence(
        (#[trigger] lexemes[k])->Operator_0,
    ) >= spec_precedence(lexemes[at]->Operator_0) by {
        assert(is_operator(lexemes[k]));
        assert(is_operator(lexemes[at]));
    }
}

/// The steps taken when the last operand of a product has been pushed.
spec fn term_steps(term: Seq<Lexeme>) -> Seq<Step> {
    if term.len() == 1 {
        seq![Step::Push(term[0]->Number_0)]
    } else {
        postfix(tree(term.take(term.len() - 2))) + seq![Step::Push(term.last()->Number_0)]
    }
}

/// The operator of a product that waits for its right operand to be used.
spec fn term_operators(term: Seq<Lexeme>) -> Seq<char> {
    if term.len() == 1 {
        Seq::empty()
    } else {
        seq![term[term.len() - 2]->Operator_0]
    }
}

/// Where the machine stands after an infix sequence: the sum before the last
/// `+` or `-` is computed and that operator waits, and of the product after
/// it the last operator waits.
spec fn expected(lexemes: Seq<Lexeme>) -> Machine {
    let at = last_additive(lexemes);
    if at < 0 {
        Machine {
            steps: term_steps(lexemes),
            depth: 1 + term_operators(lexemes).len(),
            operators: term_operators(lexemes),
            fault: None,
        }
    } else {
        let right = lexemes.skip(at + 1);
        Machine {
            steps: postfix(tree(lexemes.take(at))) + term_steps(right),
            depth: 2 + term_operators(right).len(),
            operators: seq![lexemes[at]->Operator_0] + term_operators(right),
            fault: None,
        }
    }
}

/// Applying the waiting operator of a product completes its tree.
proof fn lemma_term(term: Seq<Lexeme>)
    requires
        is_infix(term),
        last_additive(term) < 0,
    ensures
        term.len() == 1 ==> postfix(tree(term)) == term_steps(term),
        term.len() > 1 ==> postfix(tree(term)) == term_steps(term).push(
            Step::Apply(term_operators(term)[0]),
        ),
{
    if term.len() > 1 {
        let n = term.len() - 2;
        let last = term.skip(n + 1);
        assert(last_additive(last) == -1);
        assert(last[0] == term.last());
        assert(tree(last) == Expr::Number(term.last()->Number_0));
        assert(postfix(tree(last)) =~= seq![Step::Push(term.last()->Number_0)]);
        assert(postfix(tree(term)) =~= term_steps(term).push(
            Step::Apply(term_operators(term)[0]),
        ));
    }
}

/// One round of `unwind`.
proof fn lemma_unwind_once(m: Machine, floor: int)
    requires
        m.fault is None,
        m.operators.len() > 0,
        spec_precedence(m.operators.last()) >= floor,
    ensures
        unwind(m, floor) == unwind(
            apply(Machine { operators: m.operators.drop_last(), ..m }, m.operators.last()),
            floor,
        ),
{
}

/// Unwinding after an infix sequence: below a `*` or `/` only the waiting
/// product is completed; below anything else the whole tree is.
proof fn lemma_unwind_expected(lexemes: Seq<Lexeme>, floor: int)
    requires
        is_infix(lexemes),
        0 <= floor <= 2,
    ensures
        floor <= 1 || last_additive(lexemes) < 0 ==> unwind(expected(lexemes), floor) == (Machine {
            steps: postfix(tree(lexemes)),
            depth: 1,
            operators: Seq::empty(),
            fault: None,
        }),
        floor == 2 && last_additive(lexemes) >= 0 ==> unwind(expected(lexemes), floor) == (Machine {
            steps: postfix(tree(lexemes.take(last_additive(lexemes)))) + postfix(
                tree(lexemes.skip(last_additive(lexemes) + 1)),
            ),
            depth: 2,
            operators: seq![lexemes[last_additive(lexemes)]->Operator_0],
            fault: None,
        }),
{
    lemma_last_additive(lexemes);
    let at = last_additive(lexemes);
    let m = expected(lexemes);
    if at < 0 {
        lemma_term(lexemes);
        if lexemes.len() == 1 {
            assert(m.operators =~= Seq::empty());
        } else {
            let n = lexemes.len() - 2;
            let op = lexemes[n]->Operator_0;
            assert(is_operator(lexemes[n]));
            assert(m.operators.last() == op);
            lemma_unwind_once(m, floor);
            let popped = Machine { operators: m.operators.drop_last(), ..m };
            let next = apply(popped, op);
            assert(next.operators =~= Seq::empty());
            assert(unwind(next, floor) == next);
        }
    } else {
        let right = lexemes.skip(at + 1);
        let sum = lexemes[at]->Operator_0;
        assert(is_operator(lexemes[at]));
        lemma_infix_parts(lexemes, at);
        assert forall|k: int| 0 < k < right.len() && k % 2 == 1 implies spec_precedence(
            (#[trigger] right[k])->Operator_0,
        ) == 2 by {
            assert(right[k] == lexemes[k + at + 1]);
        }
        lemma_all_products(right);
        lemma_term(right);
        // The product on the right is completed first.
        let settled = Machine {
            steps: postfix(tree(lexemes.take(at))) + postfix(tree(right)),
            depth: 2,
            operators: seq![sum],
            fault: None,
        };
        if right.len() == 1 {
            assert(m.operators =~= seq![sum]);
            assert(m == settled);
        } else {
            let op = right[right.len() - 2]->Operator_0;
            assert(is_operator(right[right.len() - 2]));
            assert(m.operators =~= seq![sum, op]);
            lemma_unwind_once(m, floor);
            let popped = Machine { operators: m.operators.drop_last(), ..m };
            let next = apply(popped, op);
            assert(next.operators =~= seq![sum]);
            assert(next.steps =~= settled.steps);
            assert(next == settled);
        }
        assert(unwind(m, floor) == unwind(settled, floor));
        if floor <= 1 {
            lemma_unwind_once(settled, floor);
            let popped = Machine { operators: settled.operators.drop_last(), ..settled };
            let next = apply(popped, sum);
            assert(next.operators =~= Seq::empty());
            assert(unwind(next, floor) == next);
            assert(root(lexemes) == at);
            assert(next.steps =~= postfix(tree(lexemes)));
        } else {
            assert(unwind(settled, floor) == settled);
        }
    }
}

/// A sequence whose operators are all `*` or `/` has no last `+` or `-`.
proof fn lemma_all_products(lexemes: Seq<Lexeme>)
    requires
        lexemes.len() % 2 == 1,
        forall|k: int|
            0 < k < lexemes.len() && k % 2 == 1 ==> spec_precedence(
                (#[trigger] lexemes[k])->Operator_0,
            ) == 2,
    ensures
        last_additive(lexemes) == -1,
    decreases lexemes.len(),
{
    if lexemes.len() >= 3 {
        let shorter = lexemes.take(lexemes.len() - 2);
        assert(spec_precedence(lexemes[lexemes.len() - 2]->Operator_0) == 2);
        assert forall|k: int| 0 < k < shorter.len() && k % 2 == 1 implies spec_precedence(
            (#[trigger] shorter[k])->Operator_0,
        ) == 2 by {
            assert(shorter[k] == lexemes[k]);
        }
        lemma_all_products(shorter);
    }
}

/// After an infix sequence the machine stands as `expected` says.
proof fn lemma_after_expected(lexemes: Seq<Lexeme>)
    requires
        is_infix(lexemes),
    ensures
        after(lexemes, lexemes.len()) == expected(lexemes),
    decreases lexemes.len(),
{
    let len = lexemes.len();
    if len == 1 {
        assert(after(lexemes, 0) == start());
        assert(is_operand(lexemes[0]));
        let m = after(lexemes, 1);
        assert(m == feed(start(), lexemes[0]));
        assert(m.steps =~= term_steps(lexemes));
        assert(m.operators =~= term_operators(lexemes));
    } else {
        let n: int = len - 2;
        let before = lexemes.take(n as int);
        lemma_infix_parts(lexemes, n as int);
        lemma_after_expected(before);
        lemma_after_prefix(lexemes, n as nat, n as nat);
        lemma_last_additive(lexemes);
        lemma_last_additive(before);
        let op = lexemes[n as int]->Operator_0;
        let text = lexemes[n + 1]->Number_0;
        assert(is_operator(lexemes[n as int]));
        assert(is_operand(lexemes[n + 1]));
        let m = after(lexemes, n as nat);
        assert(m == expected(before));
        let floor = spec_precedence(op);
        lemma_unwind_expected(before, floor);
        let unwound = unwind(m, floor);
        let shifted = feed(m, lexemes[n as int]);
        assert(after(lexemes, (n + 1) as nat) == shifted);
        assert(shifted == Machine { operators: unwound.operators.push(op), ..unwound });
        let reached = after(lexemes, len);
        assert(reached == feed(shifted, lexemes[n + 1]));
        assert(reached == Machine {
            steps: shifted.steps.push(Step::Push(text)),
            depth: shifted.depth + 1,
            ..shifted
        });
        let at = last_additive(lexemes);
        let goal = expected(lexemes);
        if floor == 1 {
            assert(at == n);
            let right = lexemes.skip(at + 1);
            assert(right.len() == 1);
            assert(right[0] == lexemes[n + 1]);
            assert(reached.steps =~= goal.steps);
            assert(reached.operators =~= goal.operators);
        } else {
            assert(at == last_additive(before));
            if at < 0 {
                assert(reached.steps =~= goal.steps);
                assert(reached.operators =~= goal.operators);
            } else {
                let right = lexemes.skip(at + 1);
                assert(right.take(right.len() - 2) =~= before.skip(at + 1));
                assert(lexemes.take(at) =~= before.take(at));
                assert(right.last() == lexemes[n + 1]);
                assert(right[right.len() - 2] == lexemes[n as int]);
                assert(before[at] == lexemes[at]);
                assert(reached.steps =~= goal.steps);
                assert(reached.operators =~= goal.operators);
            }
        }
    }
}

/// Operands and operators `+ - * /` in turn are evaluated as the usual rules
/// demand: the steps taken are those that compute the tree of the sequence,
/// in which `*` and `/` bind tighter than `+` and `-` and operators that bind
/// alike group from the left, and no error stands at their end.
pub proof fn lemma_infix_plan(lexemes: Seq<Lexeme>)
    requires
        is_infix(lexemes),
    ensures
        plan(lexemes) == (Plan { steps: postfix(tree(lexemes)), fault: None }),
{
    lemma_after_expected(lexemes);
    lemma_unwind_expected(lexemes, 0);
}

/// `value` is what the tree computes to: a number is read from its text, and
/// an operator is applied to what its two sides compute to, a division only
/// where its divisor has been found not to be zero.
pub open spec fn computes<V, P, Z, A>(parse: P, is_zero: Z, arith: A, e: Expr, value: V) -> bool where
    P: Fn(&str) -> V,
    Z: Fn(&V) -> bool,
    A: Fn(char, V, V) -> V,

    decreases e,
{
    match e {
        Expr::Number(text) => exists|source: &str|
            source@ == text && #[trigger] parse.ensures((source,), value),
        Expr::Binary(op, left, right) => exists|a: V, b: V|
            {
                &&& computes(parse, is_zero, arith, *left, a)
                &&& computes(parse, is_zero, arith, *right, b)
                &&& op == '/' ==> is_zero.ensures((&b,), false)
                &&& #[trigger] arith.ensures((op, a, b), value)
            },
    }
}

/// Where a run takes the steps of a tree, it leaves the stack as it was, with
/// what the tree computes to on top.
proof fn lemma_postfix_run<V, P, Z, A>(
    parse: P,
    is_zero: Z,
    arith: A,
    e: Expr,
    steps: Seq<Step>,
    stacks: Seq<Seq<V>>,
    from: int,
) where P: Fn(&str) -> V, Z: Fn(&V) -> bool, A: Fn(char, V, V) -> V
    requires
        runs(parse, is_zero, arith, steps, stacks),
        0 <= from,
        from + postfix(e).len() < stacks.len(),
        steps.subrange(from, from + postfix(e).len()) == postfix(e),
    ensures
        stacks[from + postfix(e).len()].len() == stacks[from].len() + 1,
        stacks[from + postfix(e).len()].drop_last() == stacks[from],
        computes(parse, is_zero, arith, e, stacks[from + postfix(e).len()].last()),
    decreases e,
{
    let window = steps.subrange(from, from + postfix(e).len());
    match e {
        Expr::Number(text) => {
            assert(postfix(e).len() == 1);
            assert(window[0] == steps[from]);
            assert(taken_at(parse, is_zero, arith, steps, stacks, from));
        },
        Expr::Binary(op, left, right) => {
            let l = postfix(*left);
            let r = postfix(*right);
            let mid = from + l.len();
            let top = mid + r.len();
            assert(postfix(e).len() == l.len() + r.len() + 1);
            assert(steps.subrange(from, mid) =~= l) by {
                assert forall|i: int| 0 <= i < l.len() implies steps.subrange(from, mid)[i]
                    == l[i] by {
                    assert(window[i] == postfix(e)[i]);
                }
            }
            assert(steps.subrange(mid, top) =~= r) by {
                assert forall|i: int| 0 <= i < r.len() implies steps.subrange(mid, top)[i]
                    == r[i] by {
                    assert(window[l.len() + i] == postfix(e)[l.len() + i]);
                }
            }
            assert(steps[top] == Step::Apply(op)) by {
                assert(window[top - from] == postfix(e)[top - from]);
            }
            lemma_postfix_run(parse, is_zero, arith, *left, steps, stacks, from);
            lemma_postfix_run(parse, is_zero, arith, *right, steps, stacks, mid);
            assert(taken_at(parse, is_zero, arith, steps, stacks, top));
            let before = stacks[top];
            assert(before.len() >= 2);
            let a = stacks[mid].last();
            let b = before.last();
            assert(before[before.len() - 2] == a) by {
                assert(before.drop_last()[before.len() - 2] == before[before.len() - 2]);
            }
            assert(before.take(before.len() - 2) =~= stacks[from]) by {
                assert(before.drop_last().drop_last() =~= before.take(before.len() - 2));
            }
            assert(computes(parse, is_zero, arith, *left, a));
            assert(computes(parse, is_zero, arith, *right, b));
            let value = stacks[top + 1].last();
            assert(arith.ensures((op, a, b), value));
        },
    }
}

/// Operands and operators `+ - * /` in turn evaluate to what the usual rules
/// demand: the result is what the tree of the sequence computes to, in which
/// `*` and `/` bind tighter than `+` and `-` and operators that bind alike
/// group from the left. The one error there can be is a division by zero.
pub proof fn lemma_infix_value<V, P, Z, A>(
    parse: P,
    is_zero: Z,
    arith: A,
    lexemes: Seq<Lexeme>,
    result: Result<V, EvalError>,
) where P: Fn(&str) -> V, Z: Fn(&V) -> bool, A: Fn(char, V, V) -> V
    requires
        is_infix(lexemes),
        evaluates_to(parse, is_zero, arith, plan(lexemes), result),
    ensures
        match result {
            Ok(value) => computes(parse, is_zero, arith, tree(lexemes), value),
            Err(e) => e == EvalError::DivisionByZero,
        },
{
    lemma_infix_plan(lexemes);
    let steps = postfix(tree(lexemes));
    let stacks = choose|stacks: Seq<Seq<V>>|
        witnesses(parse, is_zero, arith, plan(lexemes), stacks, result);
    if stacks.len() > steps.len() {
        assert(steps.subrange(0, steps.len() as int) =~= steps);
        lemma_postfix_run(parse, is_zero, arith, tree(lexemes), steps, stacks, 0);
    }
}

/// Every operator that the steps of the tree apply stands in the sequence.
proof fn lemma_postfix_operators(lexemes: Seq<Lexeme>, k: int)
    requires
        is_infix(lexemes),
        0 <= k < postfix(tree(lexemes)).len(),
        postfix(tree(lexemes))[k] is Apply,
    ensures
        exists|i: int|
            0 <= i < lexemes.len() && #[trigger] lexemes[i] == Lexeme::Operator(
                postfix(tree(lexemes))[k]->Apply_0,
            ),
    decreases lexemes.len(),
{
    lemma_last_additive(lexemes);
    let at = root(lexemes);
    let op = postfix(tree(lexemes))[k]->Apply_0;
    if 0 < at < lexemes.len() {
        let left = lexemes.take(at);
        let right = lexemes.skip(at + 1);
        lemma_infix_parts(lexemes, at);
        let l = postfix(tree(left));
        let r = postfix(tree(right));
        assert(is_operator(lexemes[at]));
        if k < l.len() {
            lemma_postfix_operators(left, k);
            let i = choose|i: int|
                0 <= i < left.len() && #[trigger] left[i] == Lexeme::Operator(op);
            assert(lexemes[i] == Lexeme::Operator(op));
        } else if k < l.len() + r.len() {
            lemma_postfix_operators(right, k - l.len());
            let i = choose|i: int|
                0 <= i < right.len() && #[trigger] right[i] == Lexeme::Operator(op);
            assert(lexemes[i + at + 1] == Lexeme::Operator(op));
        } else {
            assert(lexemes[at] == Lexeme::Operator(op));
        }
    }
}

/// Operands and operators `+ - *` in turn always evaluate to a result: where
/// nothing is divided, no error can come.
pub proof fn lemma_infix_without_division<V, P, Z, A>(
    parse: P,
    is_zero: Z,
    arith: A,
    lexemes: Seq<Lexeme>,
    result: Result<V, EvalError>,
) where P: Fn(&str) -> V, Z: Fn(&V) -> bool, A: Fn(char, V, V) -> V
    requires
        is_infix(lexemes),
        forall|i: int| 0 <= i < lexemes.len() ==> #[trigger] lexemes[i] != Lexeme::Operator('/'),
        evaluates_to(parse, is_zero, arith, plan(lexemes), result),
    ensures
        result is Ok,
        computes(parse, is_zero, arith, tree(lexemes), result->Ok_0),
{
    lemma_infix_plan(lexemes);
    lemma_infix_value(parse, is_zero, arith, lexemes, result);
    let steps = postfix(tree(lexemes));
    let stacks = choose|stacks: Seq<Seq<V>>|
        witnesses(parse, is_zero, arith, plan(lexemes), stacks, result);
    if stacks.len() <= steps.len() {
        lemma_postfix_operators(lexemes, stacks.len() - 1);
    }
}

} // verus!
