use crate::rewriter::guard_order;
use crate::validatable::Validatable;
use vstd::prelude::*;

verus! {

/// What a run of guard blocks comes to, given the validation outcome of each
/// guard in the order in which the guards stand: the first failure, which ends
/// the run at once, or success where every guard falls through.
pub open spec fn first_failure<E>(checks: Seq<Result<(), E>>) -> Result<(), E>
    decreases checks.len(),
{
    if checks.len() == 0 {
        Ok(())
    } else if checks[0] is Err {
        checks[0]
    } else {
        first_failure(checks.drop_first())
    }
}

/// What a rewritten function returns. `outcomes` holds the validation outcome
/// of each identifier, in the order of the identifier list; `unguarded` is
/// what the function's own statements return for the same arguments.
pub open spec fn guarded_result<T, E>(outcomes: Seq<Result<(), E>>, unguarded: Result<T, E>)
    -> Result<T, E> {
    match first_failure(guard_order(outcomes)) {
        Err(error) => Err(error),
        Ok(_) => unguarded,
    }
}

/// Every argument's validation signals success.
pub open spec fn all_pass<E, V: Validatable<E>>(arguments: Seq<&V>) -> bool {
    forall|j: int|
        0 <= j < arguments.len() ==> call_ensures(V::validate, (#[trigger] arguments[j],), Ok(()))
}

/// The validation of the argument at position `k` fails with `error`, and
/// every argument behind it in the list, each of which is validated before
/// it, passes.
pub open spec fn stops_at<E, V: Validatable<E>>(arguments: Seq<&V>, k: int, error: E) -> bool {
    &&& 0 <= k < arguments.len()
    &&& call_ensures(V::validate, (arguments[k],), Err(error))
    &&& forall|j: int|
        k < j < arguments.len() ==> call_ensures(
            V::validate,
            (#[trigger] arguments[j],),
            Ok(()),
        )
}

/// How the result of a guarded call relates to its parts: either every
/// argument passes and the result is that of the function's own statements,
/// `body`, or it is the error of the first argument, in the guards' order,
/// that fails.
pub open spec fn guarded_call<T, E, V: Validatable<E>, F: FnOnce() -> Result<T, E>>(
    arguments: Seq<&V>,
    body: F,
    result: Result<T, E>,
) -> bool {
    ||| all_pass(arguments) && call_ensures(body, (), result)
    ||| result is Err && exists|k: int| stops_at(arguments, k, result->Err_0)
}

/// Decides what a rewritten function returns from the validation outcome of
/// each identifier, given in the order of the identifier list, and from what
/// the function's own statements return.
pub fn guarded_outcome<T, E>(outcomes: Vec<Result<(), E>>, unguarded: Result<T, E>) -> (result:
    Result<T, E>)
    ensures
        result == guarded_result(outcomes@, unguarded),
{
    let mut waiting = outcomes;
    while waiting.len() > 0
        invariant
            guarded_result(waiting@, unguarded) == guarded_result(outcomes@, unguarded),
        decreases waiting@.len(),
    {
        proof {
            lemma_last_runs_first(waiting@);
        }
        let outcome = waiting.pop();
        match outcome {
            Some(Err(error)) => {
                return Err(error);
            },
            _ => {},
        }
    }
    unguarded
}

/// Runs what a function rewritten with a guard for each of its `arguments`
/// does when it is called: validates the arguments in the guards' order, from
/// the last of the list to the first, returns the error of the first that
/// fails, and runs `body`, the function's own statements, only where all
/// pass.
pub fn run_guarded<T, E, V: Validatable<E>, F: FnOnce() -> Result<T, E>>(
    arguments: &[&V],
    body: F,
) -> (result: Result<T, E>)
    requires
        call_requires(body, ()),
    ensures
        guarded_call(arguments@, body, result),
        arguments@.len() == 0 ==> call_ensures(body, (), result),
{
    let mut waiting: usize = arguments.len();
    while waiting > 0
        invariant
            waiting <= arguments@.len(),
            forall|j: int|
                waiting <= j < arguments@.len() ==> call_ensures(
                    V::validate,
                    (#[trigger] arguments@[j],),
                    Ok(()),
                ),
        decreases waiting,
    {
        waiting -= 1;
        let outcome = arguments[waiting].validate();
        if outcome.is_err() {
            let error = outcome.err().unwrap();
            let ghost failed: Result<T, E> = Err(error);
            assert(stops_at(arguments@, waiting as int, failed->Err_0));
            return Err(error);
        }
        assert(outcome->Ok_0 == ());
    }
    body()
}

/// The guards' order starts with the last identifier of the list, and goes on
/// with the guards' order of the list without it.
pub proof fn lemma_last_runs_first<A>(identifiers: Seq<A>)
    requires
        identifiers.len() > 0,
    ensures
        guard_order(identifiers)[0] == identifiers.last(),
        guard_order(identifiers).drop_first() == guard_order(identifiers.drop_last()),
{
}

/// Where the guards up to position `k` of a run all fall through, the run
/// comes to what the guards from `k` on come to.
pub proof fn lemma_skip_passing<E>(checks: Seq<Result<(), E>>, k: int)
    requires
        0 <= k <= checks.len(),
        forall|j: int| 0 <= j < k ==> (#[trigger] checks[j]) is Ok,
    ensures
        first_failure(checks) == first_failure(checks.skip(k)),
    decreases k,
{
    if k == 0 {
        assert(checks.skip(0) == checks);
    } else {
        let rest = checks.drop_first();
        assert forall|j: int| 0 <= j < k - 1 implies (#[trigger] rest[j]) is Ok by {
            assert(rest[j] == checks[j + 1]);
        }
        lemma_skip_passing(rest, k - 1);
        assert(rest.skip(k - 1) == checks.skip(k));
    }
}

/// Where the validation of every identifier signals success, the rewritten
/// function returns what its own statements return for the same arguments.
pub proof fn lemma_pass_through<T, E>(outcomes: Seq<Result<(), E>>, unguarded: Result<T, E>)
    requires
        forall|i: int| 0 <= i < outcomes.len() ==> (#[trigger] outcomes[i]) is Ok,
    ensures
        guarded_result(outcomes, unguarded) == unguarded,
{
    let checks = guard_order(outcomes);
    assert forall|j: int| 0 <= j < checks.len() implies (#[trigger] checks[j]) is Ok by {
        assert(checks[j] == outcomes[outcomes.len() - 1 - j]);
    }
    lemma_skip_passing(checks, checks.len() as int);
}

/// Where, in the guards' order, the first guard to fail stands at position
/// `k`, the rewritten function returns that guard's error. Neither the guards
/// behind position `k` nor the function's own statements have a say: with any
/// other outcomes there, and any other result of the statements, the function
/// returns the same.
pub proof fn lemma_short_circuit<T, E>(
    outcomes: Seq<Result<(), E>>,
    unguarded: Result<T, E>,
    k: int,
    others: Seq<Result<(), E>>,
    other_unguarded: Result<T, E>,
)
    requires
        0 <= k < outcomes.len(),
        guard_order(outcomes)[k] is Err,
        forall|j: int| 0 <= j < k ==> (#[trigger] guard_order(outcomes)[j]) is Ok,
        others.len() == outcomes.len(),
        forall|j: int| 0 <= j <= k ==> #[trigger] guard_order(others)[j] == guard_order(outcomes)[j],
    ensures
        guarded_result(outcomes, unguarded) == Err::<T, E>(guard_order(outcomes)[k]->Err_0),
        guarded_result(others, other_unguarded) == guarded_result(outcomes, unguarded),
{
    let checks = guard_order(outcomes);
    lemma_skip_passing(checks, k);
    assert(checks.skip(k)[0] == checks[k]);
    let other_checks = guard_order(others);
    assert forall|j: int| 0 <= j < k implies (#[trigger] other_checks[j]) is Ok by {
        assert(guard_order(others)[j] == guard_order(outcomes)[j]);
    }
    lemma_skip_passing(other_checks, k);
    assert(other_checks.skip(k)[0] == other_checks[k]);
    assert(guard_order(others)[k] == guard_order(outcomes)[k]);
}

/// A guarded call computes the rewritten function's result. Where each
/// argument's validation has one outcome only, listed in `outcomes`, and the
/// function's own statements one result only, `unguarded`, the call returns
/// what `guarded_result` says.
pub proof fn lemma_guarded_call_result<T, E, V: Validatable<E>, F: FnOnce() -> Result<T, E>>(
    arguments: Seq<&V>,
    body: F,
    result: Result<T, E>,
    outcomes: Seq<Result<(), E>>,
    unguarded: Result<T, E>,
)
    requires
        guarded_call(arguments, body, result),
        outcomes.len() == arguments.len(),
        forall|j: int, outcome: Result<(), E>|
            0 <= j < arguments.len() && #[trigger] call_ensures(
                V::validate,
                (arguments[j],),
                outcome,
            ) ==> outcome == outcomes[j],
        forall|returned: Result<T, E>| #[trigger]
            call_ensures(body, (), returned) ==> returned == unguarded,
    ensures
        result == guarded_result(outcomes, unguarded),
{
    let n: int = outcomes.len() as int;
    if all_pass(arguments) && call_ensures(body, (), result) {
        assert forall|i: int| 0 <= i < n implies (#[trigger] outcomes[i]) is Ok by {
            assert(call_ensures(V::validate, (arguments[i],), Ok(())));
        }
        lemma_pass_through(outcomes, unguarded);
    } else {
        let k: int = choose|k: int| stops_at(arguments, k, result->Err_0);
        let failed: Result<(), E> = Err(result->Err_0);
        assert(outcomes[k] == failed);
        let at: int = n - 1 - k;
        assert(guard_order(outcomes)[at] == outcomes[k]);
        assert forall|j: int| 0 <= j < at implies (#[trigger] guard_order(outcomes)[j]) is Ok by {
            assert(call_ensures(V::validate, (arguments[n - 1 - j],), Ok(())));
            assert(guard_order(outcomes)[j] == outcomes[n - 1 - j]);
        }
        lemma_short_circuit(outcomes, unguarded, at, outcomes, unguarded);
    }
}

} // verus!
