use vstd::prelude::*;
use crate::error::EvalError;
use crate::plan::{Plan, Step};

verus! {

/// The operand stack `after` is what applying `op` makes of `before`: the two
/// topmost operands `a` (below) and `b` (on top) have given way to what
/// `arith` returned for `a op b`, and where `op` divides, `is_zero` has said
/// that `b` is not zero.
pub open spec fn applied<V, Z, A>(
    is_zero: Z,
    arith: A,
    op: char,
    before: Seq<V>,
    after: Seq<V>,
) -> bool where Z: Fn(&V) -> bool, A: Fn(char, V, V) -> V {
    &&& before.len() >= 2
    &&& after.len() == before.len() - 1
    &&& after.drop_last() == before.take(before.len() - 2)
    &&& op == '/' ==> is_zero.ensures((&before[before.len() - 1],), false)
    &&& arith.ensures((op, before[before.len() - 2], before[before.len() - 1]), after.last())
}

/// The operand stack `after` is what `step` makes of `before`.
pub open spec fn step_taken<V, P, Z, A>(
    parse: P,
    is_zero: Z,
    arith: A,
    step: Step,
    before: Seq<V>,
    after: Seq<V>,
) -> bool where P: Fn(&str) -> V, Z: Fn(&V) -> bool, A: Fn(char, V, V) -> V {
    match step {
        Step::Push(text) => {
            &&& after.len() == before.len() + 1
            &&& after.drop_last() == before
            &&& exists|source: &str|
                source@ == text && #[trigger] parse.ensures((source,), after.last())
        },
        Step::Apply(op) => applied(is_zero, arith, op, before, after),
    }
}

/// Step `k` leads from stack `k` to the next one.
pub open spec fn taken_at<V, P, Z, A>(
    parse: P,
    is_zero: Z,
    arith: A,
    steps: Seq<Step>,
    stacks: Seq<Seq<V>>,
    k: int,
) -> bool where P: Fn(&str) -> V, Z: Fn(&V) -> bool, A: Fn(char, V, V) -> V {
    step_taken(parse, is_zero, arith, steps[k], stacks[k], stacks[k + 1])
}

/// `stacks` records a run of the first steps of `steps`: it begins with the
/// empty operand stack, and each step taken leads from one stack to the next.
pub open spec fn runs<V, P, Z, A>(
    parse: P,
    is_zero: Z,
    arith: A,
    steps: Seq<Step>,
    stacks: Seq<Seq<V>>,
) -> bool where P: Fn(&str) -> V, Z: Fn(&V) -> bool, A: Fn(char, V, V) -> V {
    &&& 1 <= stacks.len() <= steps.len() + 1
    &&& stacks[0].len() == 0
    &&& forall|k: int|
        0 <= k < stacks.len() - 1 ==> #[trigger] taken_at(parse, is_zero, arith, steps, stacks, k)
}

/// `stacks` shows that the plan gives `result`: either the run stops before a
/// division whose divisor `is_zero` has called zero, and the result is that
/// error; or every step was taken, and the result is the plan's fault or,
/// without one, the one operand that the last stack holds.
pub open spec fn witnesses<V, P, Z, A>(
    parse: P,
    is_zero: Z,
    arith: A,
    plan: Plan,
    stacks: Seq<Seq<V>>,
    result: Result<V, EvalError>,
) -> bool where P: Fn(&str) -> V, Z: Fn(&V) -> bool, A: Fn(char, V, V) -> V {
    &&& runs(parse, is_zero, arith, plan.steps, stacks)
    &&& if stacks.len() <= plan.steps.len() {
        &&& plan.steps[stacks.len() - 1] == Step::Apply('/')
        &&& stacks.last().len() >= 2
        &&& is_zero.ensures((&stacks.last().last(),), true)
        &&& result == Err::<V, EvalError>(EvalError::DivisionByZero)
    } else {
        match plan.fault {
            Some(e) => result == Err::<V, EvalError>(e),
            None => stacks.last().len() == 1 && result == Ok::<V, EvalError>(stacks.last()[0]),
        }
    }
}

/// Carrying out `plan` with the given ways to read a number, to test for
/// zero and to compute can end in `result`.
pub open spec fn evaluates_to<V, P, Z, A>(
    parse: P,
    is_zero: Z,
    arith: A,
    plan: Plan,
    result: Result<V, EvalError>,
) -> bool where P: Fn(&str) -> V, Z: Fn(&V) -> bool, A: Fn(char, V, V) -> V {
    exists|stacks: Seq<Seq<V>>| witnesses(parse, is_zero, arith, plan, stacks, result)
}

/// A run of `steps` is a run of any sequence that begins with the steps taken.
pub proof fn lemma_runs_longer<V, P, Z, A>(
    parse: P,
    is_zero: Z,
    arith: A,
    steps: Seq<Step>,
    longer: Seq<Step>,
    stacks: Seq<Seq<V>>,
) where P: Fn(&str) -> V, Z: Fn(&V) -> bool, A: Fn(char, V, V) -> V
    requires
        runs(parse, is_zero, arith, steps, stacks),
        stacks.len() - 1 <= longer.len(),
        longer.take(stacks.len() - 1) == steps.take(stacks.len() - 1),
    ensures
        runs(parse, is_zero, arith, longer, stacks),
{
    assert forall|k: int| 0 <= k < stacks.len() - 1 implies #[trigger] taken_at(
        parse,
        is_zero,
        arith,
        longer,
        stacks,
        k,
    ) by {
        assert(taken_at(parse, is_zero, arith, steps, stacks, k));
        assert(longer[k] == longer.take(stacks.len() - 1)[k]);
        assert(steps[k] == steps.take(stacks.len() - 1)[k]);
    }
}

/// A complete run goes on by one step.
pub proof fn lemma_runs_on<V, P, Z, A>(
    parse: P,
    is_zero: Z,
    arith: A,
    steps: Seq<Step>,
    stacks: Seq<Seq<V>>,
    step: Step,
    next: Seq<V>,
) where P: Fn(&str) -> V, Z: Fn(&V) -> bool, A: Fn(char, V, V) -> V
    requires
        runs(parse, is_zero, arith, steps, stacks),
        stacks.len() == steps.len() + 1,
        step_taken(parse, is_zero, arith, step, stacks.last(), next),
    ensures
        runs(parse, is_zero, arith, steps.push(step), stacks.push(next)),
{
    let steps2 = steps.push(step);
    let stacks2 = stacks.push(next);
    assert forall|k: int| 0 <= k < stacks2.len() - 1 implies #[trigger] taken_at(
        parse,
        is_zero,
        arith,
        steps2,
        stacks2,
        k,
    ) by {
        if k < stacks.len() - 1 {
            assert(taken_at(parse, is_zero, arith, steps, stacks, k));
        }
    }
}

/// Reading a number, testing for zero and computing each give one result for
/// one argument, and reading goes by the characters of the text alone.
pub open spec fn single_valued<V, P, Z, A>(parse: P, is_zero: Z, arith: A) -> bool where
    P: Fn(&str) -> V,
    Z: Fn(&V) -> bool,
    A: Fn(char, V, V) -> V,
 {
    &&& forall|s1: &str, s2: &str, v1: V, v2: V|
        s1@ == s2@ && #[trigger] parse.ensures((s1,), v1) && #[trigger] parse.ensures((s2,), v2)
            ==> v1 == v2
    &&& forall|v: &V, b1: bool, b2: bool|
        #[trigger] is_zero.ensures((v,), b1) && #[trigger] is_zero.ensures((v,), b2) ==> b1 == b2
    &&& forall|op: char, a: V, b: V, r1: V, r2: V|
        #[trigger] arith.ensures((op, a, b), r1) && #[trigger] arith.ensures((op, a, b), r2) ==> r1
            == r2
}

/// Two runs of the same steps go through the same stacks.
proof fn lemma_same_stacks<V, P, Z, A>(
    parse: P,
    is_zero: Z,
    arith: A,
    steps: Seq<Step>,
    one: Seq<Seq<V>>,
    other: Seq<Seq<V>>,
    k: int,
) where P: Fn(&str) -> V, Z: Fn(&V) -> bool, A: Fn(char, V, V) -> V
    requires
        single_valued(parse, is_zero, arith),
        runs(parse, is_zero, arith, steps, one),
        runs(parse, is_zero, arith, steps, other),
        0 <= k < one.len(),
        k < other.len(),
    ensures
        one[k] == other[k],
    decreases k,
{
    if k == 0 {
        assert(one[0] =~= other[0]);
    } else {
        lemma_same_stacks(parse, is_zero, arith, steps, one, other, k - 1);
        assert(taken_at(parse, is_zero, arith, steps, one, k - 1));
        assert(taken_at(parse, is_zero, arith, steps, other, k - 1));
        let a = one[k];
        let b = other[k];
        match steps[k - 1] {
            Step::Push(text) => {
                let s1 = choose|s: &str| s@ == text && #[trigger] parse.ensures((s,), a.last());
                let s2 = choose|s: &str| s@ == text && #[trigger] parse.ensures((s,), b.last());
                assert(parse.ensures((s1,), a.last()));
                assert(parse.ensures((s2,), b.last()));
            },
            Step::Apply(op) => {},
        }
        assert(a.last() == b.last());
        assert(a =~= a.drop_last().push(a.last()));
        assert(b =~= b.drop_last().push(b.last()));
    }
}

/// Where reading, testing for zero and computing each give one result, a
/// plan has one result: evaluating again gives the same.
pub proof fn lemma_one_result<V, P, Z, A>(
    parse: P,
    is_zero: Z,
    arith: A,
    plan: Plan,
    first: Result<V, EvalError>,
    second: Result<V, EvalError>,
) where P: Fn(&str) -> V, Z: Fn(&V) -> bool, A: Fn(char, V, V) -> V
    requires
        single_valued(parse, is_zero, arith),
        evaluates_to(parse, is_zero, arith, plan, first),
        evaluates_to(parse, is_zero, arith, plan, second),
    ensures
        first == second,
{
    let one = choose|stacks: Seq<Seq<V>>| witnesses(parse, is_zero, arith, plan, stacks, first);
    let other = choose|stacks: Seq<Seq<V>>| witnesses(parse, is_zero, arith, plan, stacks, second);
    lemma_stops_alike(parse, is_zero, arith, plan, one, other, first);
    lemma_stops_alike(parse, is_zero, arith, plan, other, one, second);
    lemma_same_stacks(parse, is_zero, arith, plan.steps, one, other, one.len() - 1);
}

/// No run of the same steps goes on where one has stopped before a division
/// by zero.
proof fn lemma_stops_alike<V, P, Z, A>(
    parse: P,
    is_zero: Z,
    arith: A,
    plan: Plan,
    short: Seq<Seq<V>>,
    long: Seq<Seq<V>>,
    result: Result<V, EvalError>,
) where P: Fn(&str) -> V, Z: Fn(&V) -> bool, A: Fn(char, V, V) -> V
    requires
        single_valued(parse, is_zero, arith),
        witnesses(parse, is_zero, arith, plan, short, result),
        runs(parse, is_zero, arith, plan.steps, long),
    ensures
        short.len() <= plan.steps.len() ==> long.len() <= short.len(),
{
    if short.len() <= plan.steps.len() && short.len() < long.len() {
        let k = short.len() - 1;
        lemma_same_stacks(parse, is_zero, arith, plan.steps, short, long, k);
        assert(taken_at(parse, is_zero, arith, plan.steps, long, k));
        let stack = short[k];
        assert(is_zero.ensures((&stack[stack.len() - 1],), true));
        assert(is_zero.ensures((&stack[stack.len() - 1],), false));
    }
}

} // verus!
