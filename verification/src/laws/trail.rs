//! The runs of callbacks that a walk makes, one after the other: what they
//! make of what the walk has gathered, and what they return.

use vstd::prelude::*;

verus! {

/// One run of a callback: the callback before the children (`Down`) or the
/// one after them (`Up`), and the node it runs on.
pub enum Call<N> {
    Down(N),
    Up(N),
}

/// What the run `call` makes of what the walk has gathered, and what it
/// returns.
pub open spec fn run<S, N, R>(
    pre: spec_fn(S, N) -> (S, R),
    post: spec_fn(S, N) -> (S, R),
    s: S,
    call: Call<N>,
) -> (S, R) {
    match call {
        Call::Down(n) => pre(s, n),
        Call::Up(n) => post(s, n),
    }
}

/// What the walk has gathered after the runs `calls`, one after the other.
pub open spec fn replay<S, N, R>(
    pre: spec_fn(S, N) -> (S, R),
    post: spec_fn(S, N) -> (S, R),
    s: S,
    calls: Seq<Call<N>>,
) -> S
    decreases calls.len(),
{
    if calls.len() == 0 {
        s
    } else {
        replay(pre, post, run(pre, post, s, calls[0]).0, calls.drop_first())
    }
}

/// What the runs `calls` return, one after the other.
pub open spec fn reports<S, N, R>(
    pre: spec_fn(S, N) -> (S, R),
    post: spec_fn(S, N) -> (S, R),
    s: S,
    calls: Seq<Call<N>>,
) -> Seq<R>
    decreases calls.len(),
{
    if calls.len() == 0 {
        Seq::empty()
    } else {
        seq![run(pre, post, s, calls[0]).1] + reports(
            pre,
            post,
            run(pre, post, s, calls[0]).0,
            calls.drop_first(),
        )
    }
}

/// Runs one after the other: first `first`, then `then`.
pub proof fn lemma_replay_both<S, N, R>(
    pre: spec_fn(S, N) -> (S, R),
    post: spec_fn(S, N) -> (S, R),
    s: S,
    first: Seq<Call<N>>,
    then: Seq<Call<N>>,
)
    ensures
        replay(pre, post, s, first + then) == replay(pre, post, replay(pre, post, s, first), then),
    decreases first.len(),
{
    if first.len() == 0 {
        assert(first + then =~= then);
    } else {
        assert((first + then).drop_first() =~= first.drop_first() + then);
        lemma_replay_both(pre, post, run(pre, post, s, first[0]).0, first.drop_first(), then);
    }
}

/// A single run.
pub proof fn lemma_replay_one<S, N, R>(
    pre: spec_fn(S, N) -> (S, R),
    post: spec_fn(S, N) -> (S, R),
    s: S,
    call: Call<N>,
)
    ensures
        replay(pre, post, s, seq![call]) == run(pre, post, s, call).0,
{
    reveal_with_fuel(replay, 2);
    assert(seq![call].drop_first() =~= Seq::<Call<N>>::empty());
}

/// What runs one after the other return: first those of `first`, then
/// those of `then`.
pub proof fn lemma_reports_both<S, N, R>(
    pre: spec_fn(S, N) -> (S, R),
    post: spec_fn(S, N) -> (S, R),
    s: S,
    first: Seq<Call<N>>,
    then: Seq<Call<N>>,
)
    ensures
        reports(pre, post, s, first + then) == reports(pre, post, s, first) + reports(
            pre,
            post,
            replay(pre, post, s, first),
            then,
        ),
        reports(pre, post, s, first).len() == first.len(),
    decreases first.len(),
{
    if first.len() == 0 {
        assert(first + then =~= then);
        assert(reports(pre, post, s, first) + reports(pre, post, s, then) =~= reports(
            pre,
            post,
            s,
            then,
        ));
    } else {
        let s1 = run(pre, post, s, first[0]).0;
        assert((first + then).drop_first() =~= first.drop_first() + then);
        lemma_reports_both(pre, post, s1, first.drop_first(), then);
        assert(reports(pre, post, s, first + then) =~= reports(pre, post, s, first) + reports(
            pre,
            post,
            replay(pre, post, s, first),
            then,
        ));
    }
}

/// What a single run returns.
pub proof fn lemma_reports_one<S, N, R>(
    pre: spec_fn(S, N) -> (S, R),
    post: spec_fn(S, N) -> (S, R),
    s: S,
    call: Call<N>,
)
    ensures
        reports(pre, post, s, seq![call]) == seq![run(pre, post, s, call).1],
{
    reveal_with_fuel(reports, 2);
    assert(seq![call].drop_first() =~= Seq::<Call<N>>::empty());
    assert(reports(pre, post, s, seq![call]) =~= seq![run(pre, post, s, call).1]);
}

} // verus!
