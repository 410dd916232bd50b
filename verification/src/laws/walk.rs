//! What holds of every read-only walk.
//!
//! `calls` lists the runs of callbacks that a walk makes. The walk is those
//! runs and nothing else (`lemma_walk_is_its_calls`), so what holds of the
//! list holds of the walk: it is the depth-first tour where no callback
//! signals (`lemma_walk_is_depth_first`), and it keeps to the signals
//! (`lemma_walk_keeps_to_signals`).

use vstd::prelude::*;
use crate::error::Failure;
use crate::laws::trail::{
    lemma_replay_both, lemma_replay_one, lemma_reports_both, lemma_reports_one, replay, reports,
    run, Call,
};
use crate::model::{Inspect, Signal};
use crate::recursion::TreeNodeRecursion;
use crate::structure::TreeStructure;
use crate::callback::{reports_within, tells, Reports};
use crate::visit::{
    apply_spec, can_apply, can_apply_children, inspector, is_walk, last_signal,
    lemma_can_apply_widens, pass_by, visit_spec, visitor_post, visitor_pre, walk, walk_children,
    walks_on, TreeNodeVisitor,
};

verus! {

/// The tour of `tree`, depth first: down on `tree`, the tours of
/// its children in order, up on `tree`.
pub open spec fn tour<N: TreeStructure>(tree: N::Model) -> Seq<Call<N::Model>>
    decreases N::height(tree), 1int, 0int,
{
    seq![Call::Down(tree)] + tour_children::<N>(tree, 0) + seq![Call::Up(tree)]
}

/// The tours of the children of `tree` from the one at index `from` on, in
/// order.
pub open spec fn tour_children<N: TreeStructure>(tree: N::Model, from: int) -> Seq<Call<N::Model>>
    decreases N::height(tree), 0int, N::subtrees(tree).len() - from,
{
    if 0 <= from < N::subtrees(tree).len() {
        proof {
            N::lemma_subtrees_are_lower(tree);
        }
        tour::<N>(N::subtrees(tree)[from]) + tour_children::<N>(tree, from + 1)
    } else {
        Seq::empty()
    }
}

/// The callback `f` reports `Continue` on every node, whatever the walk has
/// gathered.
pub open spec fn always_continues<S, M>(
    f: Inspect<S, M>,
) -> bool {
    forall|s: S, tree: M| (#[trigger] f(s, tree)).1 == Ok::<TreeNodeRecursion, Failure>(
        TreeNodeRecursion::Continue,
    )
}

/// The runs of callbacks that the walk of `tree` makes, in
/// order.
pub open spec fn calls<S, N: TreeStructure>(
    pre: Inspect<S, N::Model>,
    post: Inspect<S, N::Model>,
    s: S,
    tree: N::Model,
) -> Seq<Call<N::Model>>
    decreases N::height(tree), 1int, 0int,
{
    let (s1, down) = pre(s, tree);
    match down {
        Ok(TreeNodeRecursion::Continue) => {
            let below = walk_children::<S, N>(
                pre,
                post,
                s1,
                tree,
                0,
                TreeNodeRecursion::Continue,
            ).1;
            let runs = seq![Call::Down(tree)] + calls_children::<S, N>(pre, post, s1, tree, 0);
            match below {
                Ok(TreeNodeRecursion::Continue) => runs + seq![Call::Up(tree)],
                _ => runs,
            }
        },
        Ok(TreeNodeRecursion::Jump) => seq![Call::Down(tree), Call::Up(tree)],
        _ => seq![Call::Down(tree)],
    }
}

/// The runs of callbacks that the walk of the children of `tree` makes from
/// the child at index `from` on, in order.
pub open spec fn calls_children<S, N: TreeStructure>(
    pre: Inspect<S, N::Model>,
    post: Inspect<S, N::Model>,
    s: S,
    tree: N::Model,
    from: int,
) -> Seq<Call<N::Model>>
    decreases N::height(tree), 0int, N::subtrees(tree).len() - from,
{
    if 0 <= from < N::subtrees(tree).len() {
        proof {
            N::lemma_subtrees_are_lower(tree);
        }
        let (s1, r) = walk::<S, N>(pre, post, s, N::subtrees(tree)[from]);
        let here = calls::<S, N>(pre, post, s, N::subtrees(tree)[from]);
        if walks_on(r) {
            here + calls_children::<S, N>(pre, post, s1, tree, from + 1)
        } else {
            here
        }
    } else {
        Seq::empty()
    }
}

/// The walk is its runs. The runs that `calls` lists make of what the walk
/// had gathered what the walk has gathered at its end, and the walk ends as
/// the last of them reports. The first of them is the callback before the
/// children, on the root.
pub proof fn lemma_walk_is_its_calls<S, N: TreeStructure>(
    pre: Inspect<S, N::Model>,
    post: Inspect<S, N::Model>,
    s: S,
    tree: N::Model,
)
    ensures
        ({
            let runs = calls::<S, N>(pre, post, s, tree);
            let said = reports(pre, post, s, runs);
            &&& runs.len() > 0
            &&& runs[0] == Call::Down(tree)
            &&& said.len() == runs.len()
            &&& walk::<S, N>(pre, post, s, tree) == (replay(pre, post, s, runs), said.last())
        }),
    decreases N::height(tree), 1int, 0int,
{
    let (s1, down) = pre(s, tree);
    let first = seq![Call::Down(tree)];
    let last = seq![Call::Up(tree)];
    lemma_replay_one(pre, post, s, Call::Down(tree));
    lemma_reports_one(pre, post, s, Call::Down(tree));
    match down {
        Ok(TreeNodeRecursion::Continue) => {
            let below = calls_children::<S, N>(pre, post, s1, tree, 0);
            lemma_walk_children_is_its_calls::<S, N>(
                pre,
                post,
                s1,
                tree,
                0,
                TreeNodeRecursion::Continue,
            );
            lemma_replay_both(pre, post, s, first, below);
            lemma_reports_both(pre, post, s, first, below);
            let s2 = replay(pre, post, s1, below);
            lemma_replay_one(pre, post, s2, Call::Up(tree));
            lemma_reports_one(pre, post, s2, Call::Up(tree));
            lemma_replay_both(pre, post, s, first + below, last);
            lemma_reports_both(pre, post, s, first + below, last);
        },
        Ok(TreeNodeRecursion::Jump) => {
            lemma_replay_one(pre, post, s1, Call::Up(tree));
            lemma_reports_one(pre, post, s1, Call::Up(tree));
            lemma_replay_both(pre, post, s, first, last);
            lemma_reports_both(pre, post, s, first, last);
            assert(seq![Call::Down(tree), Call::Up(tree)] =~= first + last);
        },
        _ => {},
    }
}

/// `lemma_walk_is_its_calls`, for the children of `tree` from the one at index
/// `from` on. Where no child is left, nothing runs and the walk ends as the
/// child before did.
pub proof fn lemma_walk_children_is_its_calls<S, N: TreeStructure>(
    pre: Inspect<S, N::Model>,
    post: Inspect<S, N::Model>,
    s: S,
    tree: N::Model,
    from: int,
    last: TreeNodeRecursion,
)
    requires
        0 <= from <= N::subtrees(tree).len(),
    ensures
        ({
            let runs = calls_children::<S, N>(pre, post, s, tree, from);
            let said = reports(pre, post, s, runs);
            &&& runs.len() == 0 <==> from == N::subtrees(tree).len()
            &&& said.len() == runs.len()
            &&& walk_children::<S, N>(pre, post, s, tree, from, last) == (
                replay(pre, post, s, runs),
                if from == N::subtrees(tree).len() {
                    Ok::<TreeNodeRecursion, Failure>(last)
                } else {
                    said.last()
                },
            )
        }),
    decreases N::height(tree), 0int, N::subtrees(tree).len() - from,
{
    if from < N::subtrees(tree).len() {
        N::lemma_subtrees_are_lower(tree);
        let child = N::subtrees(tree)[from];
        let (s1, r) = walk::<S, N>(pre, post, s, child);
        let here = calls::<S, N>(pre, post, s, child);
        lemma_walk_is_its_calls::<S, N>(pre, post, s, child);
        if walks_on(r) {
            let rest = calls_children::<S, N>(pre, post, s1, tree, from + 1);
            lemma_walk_children_is_its_calls::<S, N>(pre, post, s1, tree, from + 1, r->Ok_0);
            lemma_replay_both(pre, post, s, here, rest);
            lemma_reports_both(pre, post, s, here, rest);
            if rest.len() == 0 {
                assert(here + rest =~= here);
            }
        }
    } else {
        assert(reports(pre, post, s, Seq::<Call<N::Model>>::empty()).len() == 0);
    }
}

/// The runs `calls`, made one after the other, keep to the signals:
/// - nothing runs after a `Stop` or a failure: every run but the last
///   reports `Continue` or `Jump`;
/// - after `Jump` from the callback before the children of a node, the
///   callback after the children runs on the same node next;
/// - after `Jump` from the callback after the children of a node, no
///   callback after the children runs next: the next run, if there is one,
///   is the callback before the children, on another node. So the way up is
///   not taken on any ancestor of the node until a later child of one of
///   them has been walked.
pub open spec fn keep_to_signals<S, M>(
    pre: Inspect<S, M>,
    post: Inspect<S, M>,
    s: S,
    calls: Seq<Call<M>>,
) -> bool {
    let said = reports(pre, post, s, calls);
    forall|i: int|
        #![trigger calls[i]]
        0 <= i < calls.len() ==> {
            &&& i < calls.len() - 1 ==> walks_on(said[i])
            &&& calls[i] is Down && said[i] == Ok::<TreeNodeRecursion, Failure>(
                TreeNodeRecursion::Jump,
            ) ==> i + 1 < calls.len() && calls[i + 1] == Call::Up(calls[i]->Down_0)
            &&& calls[i] is Up && said[i] == Ok::<TreeNodeRecursion, Failure>(
                TreeNodeRecursion::Jump,
            ) && i + 1 < calls.len() ==> calls[i + 1] is Down
        }
}

/// Runs that keep to the signals, followed by runs that keep to the
/// signals, keep to the signals if they do where they meet.
pub proof fn lemma_keep_to_signals_both<S, M>(
    pre: Inspect<S, M>,
    post: Inspect<S, M>,
    s: S,
    first: Seq<Call<M>>,
    then: Seq<Call<M>>,
)
    requires
        first.len() > 0,
        keep_to_signals(pre, post, s, first),
        keep_to_signals(pre, post, replay(pre, post, s, first), then),
        then.len() > 0 ==> walks_on(reports(pre, post, s, first).last()),
        reports(pre, post, s, first).last() == Ok::<TreeNodeRecursion, Failure>(
            TreeNodeRecursion::Jump,
        ) ==> if first.last() is Down {
            then.len() > 0 && then[0] == Call::Up(first.last()->Down_0)
        } else {
            then.len() > 0 ==> then[0] is Down
        },
    ensures
        keep_to_signals(pre, post, s, first + then),
{
    lemma_reports_both(pre, post, s, first, then);
    lemma_reports_both(pre, post, replay(pre, post, s, first), then, Seq::empty());
    let all = first + then;
    let said = reports(pre, post, s, all);
    let said_first = reports(pre, post, s, first);
    let said_then = reports(pre, post, replay(pre, post, s, first), then);
    assert(then + Seq::<Call<M>>::empty() =~= then);
    assert forall|i: int| 0 <= i < all.len() implies {
        &&& i < all.len() - 1 ==> walks_on(said[i])
        &&& (#[trigger] all[i]) is Down && said[i] == Ok::<TreeNodeRecursion, Failure>(
            TreeNodeRecursion::Jump,
        ) ==> i + 1 < all.len() && all[i + 1] == Call::Up(all[i]->Down_0)
        &&& all[i] is Up && said[i] == Ok::<TreeNodeRecursion, Failure>(
            TreeNodeRecursion::Jump,
        ) && i + 1 < all.len() ==> all[i + 1] is Down
    } by {
        if i < first.len() {
            assert(all[i] == first[i]);
            assert(said[i] == said_first[i]);
            if i + 1 < first.len() {
                assert(all[i + 1] == first[i + 1]);
            } else if then.len() > 0 {
                assert(all[i + 1] == then[0]);
                assert(first[i] == first.last());
            }
        } else {
            let j = i - first.len();
            assert(all[i] == then[j]);
            assert(said[i] == said_then[j]);
            if j + 1 < then.len() {
                assert(all[i + 1] == then[j + 1]);
            }
        }
    }
}

/// A single run keeps to the signals unless it is `Jump` from the callback
/// before the children.
pub proof fn lemma_keep_to_signals_one<S, M>(
    pre: Inspect<S, M>,
    post: Inspect<S, M>,
    s: S,
    call: Call<M>,
)
    requires
        call is Down ==> run(pre, post, s, call).1 != Ok::<TreeNodeRecursion, Failure>(
            TreeNodeRecursion::Jump,
        ),
    ensures
        keep_to_signals(pre, post, s, seq![call]),
{
    lemma_reports_one(pre, post, s, call);
}

/// Every walk keeps to the signals: nothing runs after a `Stop` or a
/// failure; `Jump` on the way down is followed at once by the way up on the
/// same node; `Jump` on the way up is never followed by the way up on
/// another node.
pub proof fn lemma_walk_keeps_to_signals<S, N: TreeStructure>(
    pre: Inspect<S, N::Model>,
    post: Inspect<S, N::Model>,
    s: S,
    tree: N::Model,
)
    ensures
        keep_to_signals(pre, post, s, calls::<S, N>(pre, post, s, tree)),
        walk::<S, N>(pre, post, s, tree).1 == Ok::<TreeNodeRecursion, Failure>(
            TreeNodeRecursion::Jump,
        ) ==> calls::<S, N>(pre, post, s, tree).last() is Up,
    decreases N::height(tree), 1int, 0int,
{
    let (s1, down) = pre(s, tree);
    let first = seq![Call::Down(tree)];
    let last = seq![Call::Up(tree)];
    lemma_walk_is_its_calls::<S, N>(pre, post, s, tree);
    lemma_replay_one(pre, post, s, Call::Down(tree));
    lemma_reports_one(pre, post, s, Call::Down(tree));
    match down {
        Ok(TreeNodeRecursion::Continue) => {
            let below = calls_children::<S, N>(pre, post, s1, tree, 0);
            lemma_keep_to_signals_one(pre, post, s, Call::Down(tree));
            lemma_walk_children_is_its_calls::<S, N>(
                pre,
                post,
                s1,
                tree,
                0,
                TreeNodeRecursion::Continue,
            );
            lemma_walk_children_keeps_to_signals::<S, N>(pre, post, s1, tree, 0);
            lemma_keep_to_signals_both(pre, post, s, first, below);
            lemma_replay_both(pre, post, s, first, below);
            lemma_reports_both(pre, post, s, first, below);
            let s2 = replay(pre, post, s1, below);
            let ended = walk_children::<S, N>(
                pre,
                post,
                s1,
                tree,
                0,
                TreeNodeRecursion::Continue,
            ).1;
            if ended == Ok::<TreeNodeRecursion, Failure>(TreeNodeRecursion::Continue) {
                lemma_keep_to_signals_one(pre, post, s2, Call::Up(tree));
                if below.len() == 0 {
                    assert(first + below =~= first);
                }
                lemma_keep_to_signals_both(pre, post, s, first + below, last);
            } else {
                assert((first + below).last() == below.last());
            }
        },
        Ok(TreeNodeRecursion::Jump) => {
            let both = seq![Call::Down(tree), Call::Up(tree)];
            assert(both =~= first + last);
            lemma_reports_one(pre, post, s1, Call::Up(tree));
            lemma_reports_both(pre, post, s, first, last);
            assert(keep_to_signals(pre, post, s, both)) by {
                let said = reports(pre, post, s, both);
                assert(said[0] == down);
                assert(both[1] == Call::Up(tree));
            }
        },
        _ => {
            lemma_keep_to_signals_one(pre, post, s, Call::Down(tree));
        },
    }
}

/// `lemma_walk_keeps_to_signals`, for the children of `tree` from the one at
/// index `from` on.
pub proof fn lemma_walk_children_keeps_to_signals<S, N: TreeStructure>(
    pre: Inspect<S, N::Model>,
    post: Inspect<S, N::Model>,
    s: S,
    tree: N::Model,
    from: int,
)
    requires
        0 <= from <= N::subtrees(tree).len(),
    ensures
        ({
            let runs = calls_children::<S, N>(pre, post, s, tree, from);
            let said = reports(pre, post, s, runs);
            &&& keep_to_signals(pre, post, s, runs)
            &&& from < N::subtrees(tree).len() ==> runs[0] is Down
            &&& from < N::subtrees(tree).len() && said.last() == Ok::<TreeNodeRecursion, Failure>(
                TreeNodeRecursion::Jump,
            ) ==> runs.last() is Up
        }),
    decreases N::height(tree), 0int, N::subtrees(tree).len() - from,
{
    if from < N::subtrees(tree).len() {
        N::lemma_subtrees_are_lower(tree);
        let child = N::subtrees(tree)[from];
        let (s1, r) = walk::<S, N>(pre, post, s, child);
        let here = calls::<S, N>(pre, post, s, child);
        lemma_walk_is_its_calls::<S, N>(pre, post, s, child);
        lemma_walk_keeps_to_signals::<S, N>(pre, post, s, child);
        if walks_on(r) {
            let rest = calls_children::<S, N>(pre, post, s1, tree, from + 1);
            lemma_walk_children_is_its_calls::<S, N>(pre, post, s1, tree, from + 1, r->Ok_0);
            lemma_walk_children_keeps_to_signals::<S, N>(pre, post, s1, tree, from + 1);
            lemma_replay_both(pre, post, s, here, rest);
            lemma_reports_both(pre, post, s, here, rest);
            lemma_keep_to_signals_both(pre, post, s, here, rest);
            if rest.len() == 0 {
                assert(here + rest =~= here);
            } else {
                assert((here + rest).last() == rest.last());
            }
        }
    } else {
        assert(reports(pre, post, s, Seq::<Call<N::Model>>::empty()).len() == 0);
    }
}

/// The walk is depth first. With callbacks that always report `Continue`,
/// the walk of a tree ends in `Continue`, and it has run the callbacks in
/// the order of the tour: on a node before all that is below it, on its
/// children in their order, and on the node again after all that is below.
pub proof fn lemma_walk_is_depth_first<S, N: TreeStructure>(
    pre: Inspect<S, N::Model>,
    post: Inspect<S, N::Model>,
    s: S,
    tree: N::Model,
)
    requires
        always_continues(pre),
        always_continues(post),
    ensures
        walk::<S, N>(pre, post, s, tree) == (
            replay(pre, post, s, tour::<N>(tree)),
            Ok::<TreeNodeRecursion, Failure>(TreeNodeRecursion::Continue),
        ),
    decreases N::height(tree), 1int, 0int,
{
    let (s1, down) = pre(s, tree);
    lemma_walk_children_is_depth_first::<S, N>(pre, post, s1, tree, 0);
    let s2 = replay(pre, post, s1, tour_children::<N>(tree, 0));
    let first = seq![Call::Down(tree)];
    let last = seq![Call::Up(tree)];
    lemma_replay_both(pre, post, s, first + tour_children::<N>(tree, 0), last);
    lemma_replay_both(pre, post, s, first, tour_children::<N>(tree, 0));
    lemma_replay_one(pre, post, s, Call::Down(tree));
    lemma_replay_one(pre, post, s2, Call::Up(tree));
}

/// `lemma_walk_is_depth_first`, for the children of `tree` from the one at
/// index `from` on.
pub proof fn lemma_walk_children_is_depth_first<S, N: TreeStructure>(
    pre: Inspect<S, N::Model>,
    post: Inspect<S, N::Model>,
    s: S,
    tree: N::Model,
    from: int,
)
    requires
        always_continues(pre),
        always_continues(post),
        0 <= from <= N::subtrees(tree).len(),
    ensures
        walk_children::<S, N>(pre, post, s, tree, from, TreeNodeRecursion::Continue) == (
            replay(pre, post, s, tour_children::<N>(tree, from)),
            Ok::<TreeNodeRecursion, Failure>(TreeNodeRecursion::Continue),
        ),
    decreases N::height(tree), 0int, N::subtrees(tree).len() - from,
{
    if from < N::subtrees(tree).len() {
        N::lemma_subtrees_are_lower(tree);
        let child = N::subtrees(tree)[from];
        lemma_walk_is_depth_first::<S, N>(pre, post, s, child);
        let s1 = replay(pre, post, s, tour::<N>(child));
        lemma_walk_children_is_depth_first::<S, N>(pre, post, s1, tree, from + 1);
        lemma_replay_both(pre, post, s, tour::<N>(child), tour_children::<N>(tree, from + 1));
    }
}

/// `Jump` on the way down leaves out what is below. When the callback
/// before the children reports `Jump` on a node, the callback after the
/// children runs on that node next, and the walk of the node ends as that
/// callback does: no callback runs on anything below the node.
pub proof fn lemma_walk_jump_skips_descent<S, N: TreeStructure>(
    pre: Inspect<S, N::Model>,
    post: Inspect<S, N::Model>,
    s: S,
    tree: N::Model,
)
    requires
        pre(s, tree).1 == Ok::<TreeNodeRecursion, Failure>(TreeNodeRecursion::Jump),
    ensures
        walk::<S, N>(pre, post, s, tree) == post(pre(s, tree).0, tree),
{
}

/// `Jump` on the way up passes the parent by. When the walk of the children
/// of a node ends in `Jump`, the walk of the node ends in `Jump` there: the
/// callback after the children does not run on the node.
pub proof fn lemma_walk_jump_skips_ascent<S, N: TreeStructure>(
    pre: Inspect<S, N::Model>,
    post: Inspect<S, N::Model>,
    s: S,
    tree: N::Model,
)
    requires
        pre(s, tree).1 == Ok::<TreeNodeRecursion, Failure>(TreeNodeRecursion::Continue),
        walk_children::<S, N>(
            pre,
            post,
            pre(s, tree).0,
            tree,
            0,
            TreeNodeRecursion::Continue,
        ).1 == Ok::<TreeNodeRecursion, Failure>(TreeNodeRecursion::Jump),
    ensures
        walk::<S, N>(pre, post, s, tree) == walk_children::<S, N>(
            pre,
            post,
            pre(s, tree).0,
            tree,
            0,
            TreeNodeRecursion::Continue,
        ),
{
}

/// `lemma_walk_is_depth_first`, for a visitor: where both callbacks always
/// report `Continue`, `visit` ends in `Continue`, and the visitor holds
/// what the callbacks make of what it held when they run in the order of
/// the tour.
pub proof fn lemma_visit_is_depth_first<V: TreeNodeVisitor>(
    state: V::State,
    tree: <V::Node as TreeStructure>::Model,
)
    requires
        forall|s: V::State, t: <V::Node as TreeStructure>::Model|
            (#[trigger] V::f_down_model(s, t)).1 == Ok::<TreeNodeRecursion, Failure>(
                TreeNodeRecursion::Continue,
            ),
        forall|s: V::State, t: <V::Node as TreeStructure>::Model|
            (#[trigger] V::f_up_model(s, t)).1 == Ok::<TreeNodeRecursion, Failure>(
                TreeNodeRecursion::Continue,
            ),
    ensures
        visit_spec::<V>(state, tree) == (
            replay(visitor_pre::<V>(), visitor_post::<V>(), state, tour::<V::Node>(tree)),
            Ok::<TreeNodeRecursion, Failure>(TreeNodeRecursion::Continue),
        ),
{
    assert(always_continues(visitor_pre::<V>()));
    assert(always_continues(visitor_post::<V>()));
    lemma_walk_is_depth_first::<V::State, V::Node>(
        visitor_pre::<V>(),
        visitor_post::<V>(),
        state,
        tree,
    );
}

/// `tree` heads a line of only children that is `depth` nodes long below
/// it, and on each node of the line above its end the callback before the
/// children reports `Continue`, when the walk comes to `tree` with `s`
/// gathered.
pub open spec fn goes_down_a_line<S, N: TreeStructure>(
    pre: Inspect<S, N::Model>,
    s: S,
    tree: N::Model,
    depth: nat,
) -> bool
    decreases depth,
{
    depth > 0 ==> {
        &&& N::subtrees(tree).len() == 1
        &&& pre(s, tree).1 == Ok::<TreeNodeRecursion, Failure>(TreeNodeRecursion::Continue)
        &&& goes_down_a_line::<S, N>(pre, pre(s, tree).0, N::subtrees(tree)[0], (depth - 1) as nat)
    }
}

/// The end of the line of only children that is `depth` nodes long below
/// `tree`.
pub open spec fn end_of_line<N: TreeStructure>(tree: N::Model, depth: nat) -> N::Model
    decreases depth,
{
    if depth == 0 {
        tree
    } else {
        end_of_line::<N>(N::subtrees(tree)[0], (depth - 1) as nat)
    }
}

/// What the walk has gathered when it comes to the end of the line of only
/// children that is `depth` nodes long below `tree`.
pub open spec fn at_end_of_line<S, N: TreeStructure>(
    pre: Inspect<S, N::Model>,
    s: S,
    tree: N::Model,
    depth: nat,
) -> S
    decreases depth,
{
    if depth == 0 {
        s
    } else {
        at_end_of_line::<S, N>(pre, pre(s, tree).0, N::subtrees(tree)[0], (depth - 1) as nat)
    }
}

/// `Jump` on the way up rises through every only child's parent. Where the
/// walk of a node ends in `Jump`, and the node is at the end of a line of
/// only children, the walk of the head of the line ends in `Jump` with
/// what the walk of the node had gathered: the callback after the children
/// runs on no node of the line above it, however long the line is.
pub proof fn lemma_jump_rises_through_only_children<S, N: TreeStructure>(
    pre: Inspect<S, N::Model>,
    post: Inspect<S, N::Model>,
    s: S,
    tree: N::Model,
    depth: nat,
)
    requires
        goes_down_a_line::<S, N>(pre, s, tree, depth),
        walk::<S, N>(
            pre,
            post,
            at_end_of_line::<S, N>(pre, s, tree, depth),
            end_of_line::<N>(tree, depth),
        ).1 == Ok::<TreeNodeRecursion, Failure>(TreeNodeRecursion::Jump),
    ensures
        walk::<S, N>(pre, post, s, tree) == walk::<S, N>(
            pre,
            post,
            at_end_of_line::<S, N>(pre, s, tree, depth),
            end_of_line::<N>(tree, depth),
        ),
    decreases depth,
{
    if depth > 0 {
        let s1 = pre(s, tree).0;
        let child = N::subtrees(tree)[0];
        lemma_jump_rises_through_only_children::<S, N>(pre, post, s1, child, (depth - 1) as nat);
        let below = walk::<S, N>(pre, post, s1, child);
        assert(walk_children::<S, N>(pre, post, below.0, tree, 1, TreeNodeRecursion::Jump) == (
            below.0,
            Ok::<TreeNodeRecursion, Failure>(TreeNodeRecursion::Jump),
        ));
        assert(walk_children::<S, N>(pre, post, s1, tree, 0, TreeNodeRecursion::Continue)
            == below);
    }
}

/// `Jump` on the way down goes no further than its node. A walk that has
/// nothing to do after the children never ends in `Jump`: `apply` ends in
/// `Continue`, in `Stop` or in a failure.
pub proof fn lemma_apply_never_ends_in_jump<N: TreeStructure>(
    g: spec_fn(N::Model) -> Signal,
    tree: N::Model,
)
    ensures
        apply_spec::<N>(g, tree) != Ok::<TreeNodeRecursion, Failure>(TreeNodeRecursion::Jump),
    decreases N::height(tree), 1int, 0int,
{
    lemma_apply_children_never_end_in_jump::<N>(g, tree, 0);
}

/// `lemma_apply_never_ends_in_jump`, for the children of `tree` from the
/// one at index `from` on.
pub proof fn lemma_apply_children_never_end_in_jump<N: TreeStructure>(
    g: spec_fn(N::Model) -> Signal,
    tree: N::Model,
    from: int,
)
    requires
        0 <= from <= N::subtrees(tree).len(),
    ensures
        walk_children::<(), N>(
            inspector(g),
            pass_by(),
            (),
            tree,
            from,
            TreeNodeRecursion::Continue,
        ).1 != Ok::<TreeNodeRecursion, Failure>(TreeNodeRecursion::Jump),
    decreases N::height(tree), 0int, N::subtrees(tree).len() - from,
{
    if from < N::subtrees(tree).len() {
        N::lemma_subtrees_are_lower(tree);
        lemma_apply_never_ends_in_jump::<N>(g, N::subtrees(tree)[from]);
        lemma_apply_children_never_end_in_jump::<N>(g, tree, from + 1);
    }
}

/// `apply` with a callback that is a function. Where the callback can only
/// report, on each tree, what the function `g` says, `apply` can only end
/// as `apply_spec` says for `g`.
pub proof fn lemma_apply_of_a_function<N: TreeStructure>(
    reports: Reports<N::Model>,
    g: spec_fn(N::Model) -> Signal,
    tree: N::Model,
    result: Signal,
)
    requires
        reports_within(reports, tells(g)),
        can_apply::<N>(reports, tree, result),
    ensures
        result == apply_spec::<N>(g, tree),
    decreases N::height(tree), 1int,
{
    lemma_can_apply_widens::<N>(reports, tells(g), tree, result);
    let told = tells(g);
    let d = choose|d: Signal|
        #[trigger] told(tree, d) && match d {
            Ok(TreeNodeRecursion::Continue) => exists|outs: Seq<Signal>|
                can_apply_children::<N>(told, tree, outs) && result == #[trigger] last_signal(outs),
            Ok(TreeNodeRecursion::Jump) => result == Ok::<TreeNodeRecursion, Failure>(
                TreeNodeRecursion::Continue,
            ),
            _ => result == d,
        };
    assert(d == g(tree));
    if d == Ok::<TreeNodeRecursion, Failure>(TreeNodeRecursion::Continue) {
        let outs = choose|outs: Seq<Signal>|
            can_apply_children::<N>(told, tree, outs) && result == #[trigger] last_signal(outs);
        assert forall|k: int| 0 <= k < outs.len() implies #[trigger] outs[k] == apply_spec::<N>(
            g,
            N::subtrees(tree)[k],
        ) by {
            N::lemma_subtrees_are_lower(tree);
            lemma_apply_of_a_function::<N>(told, g, N::subtrees(tree)[k], outs[k]);
        }
        lemma_apply_children_of_a_function::<N>(g, tree, 0, outs, TreeNodeRecursion::Continue);
    }
}

/// `lemma_apply_of_a_function`, for the children of `tree` from the one at
/// index `from` on, when their walks end as `outs` say.
pub proof fn lemma_apply_children_of_a_function<N: TreeStructure>(
    g: spec_fn(N::Model) -> Signal,
    tree: N::Model,
    from: int,
    outs: Seq<Signal>,
    last: TreeNodeRecursion,
)
    requires
        0 <= from <= N::subtrees(tree).len(),
        is_walk(outs, (N::subtrees(tree).len() - from) as nat),
        forall|k: int|
            0 <= k < outs.len() ==> #[trigger] outs[k] == apply_spec::<N>(
                g,
                N::subtrees(tree)[from + k],
            ),
    ensures
        walk_children::<(), N>(inspector(g), pass_by(), (), tree, from, last).1 == if outs.len()
            == 0 {
            Ok::<TreeNodeRecursion, Failure>(last)
        } else {
            outs.last()
        },
    decreases N::subtrees(tree).len() - from,
{
    if from < N::subtrees(tree).len() {
        let first = outs[0];
        assert(first == apply_spec::<N>(g, N::subtrees(tree)[from + 0]));
        if walks_on(first) {
            let rest = outs.skip(1);
            assert forall|k: int| 0 <= k < rest.len() implies #[trigger] rest[k] == apply_spec::<
                N,
            >(g, N::subtrees(tree)[from + 1 + k]) by {
                assert(rest[k] == outs[k + 1]);
            }
            assert forall|i: int| 0 <= i < rest.len() - 1 implies walks_on(#[trigger] rest[i]) by {
                assert(rest[i] == outs[i + 1]);
            }
            if rest.len() > 0 {
                assert(rest.last() == outs.last());
            } else {
                assert(outs.last() == first);
            }
            lemma_apply_children_of_a_function::<N>(g, tree, from + 1, rest, first->Ok_0);
        } else {
            if outs.len() > 1 {
                assert(walks_on(outs[0]));
            }
        }
    }
}

/// `Jump` on the way down goes no further than its node, whatever the
/// callback is: `apply` never ends in `Jump`.
pub proof fn lemma_apply_cannot_end_in_jump<N: TreeStructure>(
    reports: Reports<N::Model>,
    tree: N::Model,
    result: Signal,
)
    requires
        can_apply::<N>(reports, tree, result),
    ensures
        result != Ok::<TreeNodeRecursion, Failure>(TreeNodeRecursion::Jump),
    decreases N::height(tree), 1int,
{
    let d = choose|d: Signal|
        #[trigger] reports(tree, d) && match d {
            Ok(TreeNodeRecursion::Continue) => exists|outs: Seq<Signal>|
                can_apply_children::<N>(reports, tree, outs) && result == #[trigger] last_signal(
                    outs,
                ),
            Ok(TreeNodeRecursion::Jump) => result == Ok::<TreeNodeRecursion, Failure>(
                TreeNodeRecursion::Continue,
            ),
            _ => result == d,
        };
    if d == Ok::<TreeNodeRecursion, Failure>(TreeNodeRecursion::Continue) {
        let outs = choose|outs: Seq<Signal>|
            can_apply_children::<N>(reports, tree, outs) && result == #[trigger] last_signal(outs);
        if outs.len() > 0 {
            N::lemma_subtrees_are_lower(tree);
            let k = outs.len() - 1;
            assert(can_apply::<N>(reports, N::subtrees(tree)[k], outs[k]));
            lemma_apply_cannot_end_in_jump::<N>(reports, N::subtrees(tree)[k], outs[k]);
        }
    }
}

/// `lemma_walk_is_its_calls` and `lemma_walk_keeps_to_signals`, for a
/// visitor: `visit` leaves the visitor holding what the runs of its
/// callbacks make of what it held, it ends as the last of them reports, and
/// the runs keep to the signals.
pub proof fn lemma_visit_keeps_to_signals<V: TreeNodeVisitor>(
    state: V::State,
    tree: <V::Node as TreeStructure>::Model,
)
    ensures
        ({
            let pre = visitor_pre::<V>();
            let post = visitor_post::<V>();
            let runs = calls::<V::State, V::Node>(pre, post, state, tree);
            &&& visit_spec::<V>(state, tree) == (
                replay(pre, post, state, runs),
                reports(pre, post, state, runs).last(),
            )
            &&& keep_to_signals(pre, post, state, runs)
        }),
{
    lemma_walk_is_its_calls::<V::State, V::Node>(
        visitor_pre::<V>(),
        visitor_post::<V>(),
        state,
        tree,
    );
    lemma_walk_keeps_to_signals::<V::State, V::Node>(
        visitor_pre::<V>(),
        visitor_post::<V>(),
        state,
        tree,
    );
}

} // verus!
