//! The traversals of a tree.

use vstd::prelude::*;
use vstd::std_specs::iter::IteratorSpec;
use crate::callback::{is_no_higher, reports_of, returns_of, returns_within, says};
use crate::error::{Failure, TraversalError};
use crate::model::{models_of, outcome_model, outcome_models, signal_model, Outcome, Signal};
use crate::recursion::TreeNodeRecursion;
use crate::rewrite::{
    can_remake, can_return_on_children, leave, lemma_can_remake_widens, rebuild, rewrite_node,
    rewrite_spec, transform_down_up_node, TreeNodeRewriter,
};
use crate::siblings::{
    changed_at, gather, goes_on, is_run, outcomes_of, with_seq, TransformedIterator,
};
use crate::structure::TreeStructure;
use crate::transformed::Transformed;
use crate::visit::{
    apply_node, can_apply, can_report_on_children, last_signal, visit_node, visit_spec, walks_on,
    TreeNodeVisitor,
};

verus! {

/// What is gathered from nodes is, in contracts, what is gathered from the
/// trees under them.
pub proof fn lemma_gather_models<N: TreeStructure>(
    items: Seq<N>,
    outs: Seq<Result<Transformed<N>, TraversalError>>,
)
    requires
        is_run(outs, items.len()),
    ensures
        is_run(outcome_models(outs), items.len()),
        gather(models_of(items), outcome_models(outs)) == match gather(items, outs) {
            Ok(t) => Ok::<Transformed<Seq<N::Model>>, Failure>(
                Transformed {
                    data: models_of(t.data),
                    transformed: t.transformed,
                    tnr: t.tnr,
                },
            ),
            Err(e) => Err(e@),
        },
{
    let trees = models_of(items);
    let made = outcome_models(outs);
    assert forall|i: int| 0 <= i < outs.len() implies changed_at(outs, i) == changed_at(
        made,
        i,
    ) by {}
    assert forall|i: int| 0 <= i < made.len() - 1 implies goes_on(#[trigger] made[i]) by {
        assert(goes_on(outs[i]));
    }
    if outs.len() > 0 {
        assert(made.last() == outcome_model(outs.last()));
    }
    if gather(items, outs) is Ok {
        let t = gather(items, outs)->Ok_0;
        let g = gather(trees, made)->Ok_0;
        assert forall|i: int| 0 <= i < outs.len() implies (#[trigger] outs[i]) is Ok by {
            if i < outs.len() - 1 {
                assert(goes_on(outs[i]));
            } else {
                assert(outs[i] == outs.last());
            }
        }
        assert(g.data =~= models_of(t.data));
        if t.transformed {
            let i = choose|i: int| 0 <= i < outs.len() && changed_at(outs, i);
            assert(changed_at(made, i));
        }
        if g.transformed {
            let i = choose|i: int| 0 <= i < made.len() && changed_at(made, i);
            assert(changed_at(outs, i));
        }
    }
}

/// The traversals that every tree has.
///
/// Where a callback is a closure, the contract says what the traversal can
/// come to, over all that the closure's own contract lets it return on the
/// nodes it runs on. `laws` says what that is for a closure that is a
/// function.
pub trait TreeNode: TreeStructure {
    /// Walks the tree depth first: on each node `f_down` runs, then the
    /// children are walked in order, then `f_up` runs.
    ///
    /// `Jump` from `f_down` leaves the children out. After `Jump` from the
    /// children, `f_up` does not run and the `Jump` is handed up. `Stop`
    /// and a failure end the walk.
    fn visit<V: TreeNodeVisitor<Node = Self>>(&self, visitor: &mut V) -> (r: Result<
        TreeNodeRecursion,
        TraversalError,
    >)
        ensures
            (final(visitor).state(), signal_model(r)) == visit_spec::<V>(
                old(visitor).state(),
                self.model(),
            ),
    {
        visit_node(self, visitor)
    }

    /// Rewrites the tree depth first: on each node `f_down` runs, then the
    /// children of what it returned are rewritten in order and the node is
    /// built again around them, then `f_up` runs.
    ///
    /// `Jump` from `f_down` leaves the children out. After `Jump` from the
    /// children, `f_up` does not run and the `Jump` is handed up. `Stop`
    /// and a failure end the walk. The flag is set if any callback set it.
    fn rewrite<R: TreeNodeRewriter<Node = Self>>(self, rewriter: &mut R) -> (r: Result<
        Transformed<Self>,
        TraversalError,
    >)
        ensures
            (final(rewriter).state(), outcome_model(r)) == rewrite_spec::<R>(
                old(rewriter).state(),
                self.model(),
            ),
    {
        rewrite_node(self, rewriter)
    }

    /// Walks the tree with `f` run on each node before its children.
    /// `Jump` leaves the children of the node out; `Stop` and a failure end
    /// the walk.
    fn apply<F: FnMut(&Self) -> Result<TreeNodeRecursion, TraversalError>>(&self, f: &mut F) -> (r:
        Result<TreeNodeRecursion, TraversalError>)
        requires
            forall|m: Self| call_requires(*old(f), (&m,)),
        ensures
            can_apply::<Self>(reports_of::<Self, F>(*old(f)), self.model(), signal_model(r)),
    {
        apply_node(self, f)
    }

    /// Rewrites the tree from the leaves up: `transform_up` under its usual
    /// name.
    fn transform<F: Fn(Self) -> Result<Transformed<Self>, TraversalError>>(self, f: &F) -> (r:
        Result<Transformed<Self>, TraversalError>)
        requires
            forall|m: Self| call_requires(*f, (m,)),
        ensures
            can_remake::<Self>(
                says(leave()),
                returns_of::<Self, F>(*f),
                self.model(),
                outcome_model(r),
            ),
    {
        self.transform_up(f)
    }

    /// Rewrites the tree with `f` run on each node before its children.
    /// `Jump` leaves the children of what `f` returned out; `Stop` and a
    /// failure end the walk.
    fn transform_down<F: Fn(Self) -> Result<Transformed<Self>, TraversalError>>(self, f: &F) -> (r:
        Result<Transformed<Self>, TraversalError>)
        requires
            forall|m: Self| call_requires(*f, (m,)),
            is_no_higher::<Self, F>(*f),
        ensures
            can_remake::<Self>(
                returns_of::<Self, F>(*f),
                says(leave()),
                self.model(),
                outcome_model(r),
            ),
    {
        let ghost tree = self.model();
        let mut step = |node: Self| -> (out: Result<Transformed<Self>, TraversalError>)
            requires
                call_requires(f, (node,)),
            ensures
                call_ensures(f, (node,), out),
            { f(node) };
        let ghost narrow = returns_of::<Self, _>(step);
        let r = self.transform_down_mut(&mut step);
        proof {
            assert(returns_within(narrow, returns_of::<Self, F>(*f)));
            lemma_can_remake_widens::<Self>(
                narrow,
                says(leave()),
                returns_of::<Self, F>(*f),
                says(leave()),
                tree,
                outcome_model(r),
            );
        }
        r
    }

    /// `transform_down` with a closure that may change what it holds.
    fn transform_down_mut<F: FnMut(Self) -> Result<Transformed<Self>, TraversalError>>(
        self,
        f: &mut F,
    ) -> (r: Result<Transformed<Self>, TraversalError>)
        requires
            forall|m: Self| call_requires(*old(f), (m,)),
            is_no_higher::<Self, F>(*old(f)),
        ensures
            can_remake::<Self>(
                returns_of::<Self, F>(*old(f)),
                says(leave()),
                self.model(),
                outcome_model(r),
            ),
    {
        let ghost tree = self.model();
        let mut f_up = |node: Self| -> (out: Result<Transformed<Self>, TraversalError>)
            ensures
                out == Ok::<Transformed<Self>, TraversalError>(
                    Transformed {
                        data: node,
                        transformed: false,
                        tnr: TreeNodeRecursion::Continue,
                    },
                ),
            { Ok(Transformed::no(node)) };
        let ghost narrow = returns_of::<Self, _>(f_up);
        let r = transform_down_up_node(self, f, &mut f_up);
        proof {
            assert(returns_within(narrow, says(leave::<Self::Model>())));
            lemma_can_remake_widens::<Self>(
                returns_of::<Self, F>(*old(f)),
                narrow,
                returns_of::<Self, F>(*old(f)),
                says(leave()),
                tree,
                outcome_model(r),
            );
        }
        r
    }

    /// Rewrites the tree with `f` run on each node after its children.
    /// After `Jump` from the children of a node, `f` does not run on the
    /// node and the `Jump` is handed up; `Stop` and a failure end the walk.
    fn transform_up<F: Fn(Self) -> Result<Transformed<Self>, TraversalError>>(self, f: &F) -> (r:
        Result<Transformed<Self>, TraversalError>)
        requires
            forall|m: Self| call_requires(*f, (m,)),
        ensures
            can_remake::<Self>(
                says(leave()),
                returns_of::<Self, F>(*f),
                self.model(),
                outcome_model(r),
            ),
    {
        let ghost tree = self.model();
        let mut step = |node: Self| -> (out: Result<Transformed<Self>, TraversalError>)
            requires
                call_requires(f, (node,)),
            ensures
                call_ensures(f, (node,), out),
            { f(node) };
        let ghost narrow = returns_of::<Self, _>(step);
        let r = self.transform_up_mut(&mut step);
        proof {
            assert(returns_within(narrow, returns_of::<Self, F>(*f)));
            lemma_can_remake_widens::<Self>(
                says(leave()),
                narrow,
                says(leave()),
                returns_of::<Self, F>(*f),
                tree,
                outcome_model(r),
            );
        }
        r
    }

    /// `transform_up` with a closure that may change what it holds.
    fn transform_up_mut<F: FnMut(Self) -> Result<Transformed<Self>, TraversalError>>(
        self,
        f: &mut F,
    ) -> (r: Result<Transformed<Self>, TraversalError>)
        requires
            forall|m: Self| call_requires(*old(f), (m,)),
        ensures
            can_remake::<Self>(
                says(leave()),
                returns_of::<Self, F>(*old(f)),
                self.model(),
                outcome_model(r),
            ),
    {
        let ghost tree = self.model();
        let mut f_down = |node: Self| -> (out: Result<Transformed<Self>, TraversalError>)
            ensures
                out == Ok::<Transformed<Self>, TraversalError>(
                    Transformed {
                        data: node,
                        transformed: false,
                        tnr: TreeNodeRecursion::Continue,
                    },
                ),
            { Ok(Transformed::no(node)) };
        let ghost narrow = returns_of::<Self, _>(f_down);
        let r = transform_down_up_node(self, &mut f_down, f);
        proof {
            assert(returns_within(narrow, says(leave::<Self::Model>())));
            lemma_can_remake_widens::<Self>(
                narrow,
                returns_of::<Self, F>(*old(f)),
                says(leave()),
                returns_of::<Self, F>(*old(f)),
                tree,
                outcome_model(r),
            );
        }
        r
    }

    /// Rewrites the tree with `f_down` run on each node before its children
    /// and `f_up` after them, as `rewrite` does with a rewriter.
    fn transform_down_up<
        FD: FnMut(Self) -> Result<Transformed<Self>, TraversalError>,
        FU: FnMut(Self) -> Result<Transformed<Self>, TraversalError>,
    >(self, f_down: &mut FD, f_up: &mut FU) -> (r: Result<Transformed<Self>, TraversalError>)
        requires
            forall|m: Self| call_requires(*old(f_down), (m,)),
            forall|m: Self| call_requires(*old(f_up), (m,)),
            is_no_higher::<Self, FD>(*old(f_down)),
        ensures
            can_remake::<Self>(
                returns_of::<Self, FD>(*old(f_down)),
                returns_of::<Self, FU>(*old(f_up)),
                self.model(),
                outcome_model(r),
            ),
    {
        transform_down_up_node(self, f_down, f_up)
    }

    /// Runs `f` on the children in order, until one report is `Stop` or a
    /// failure, and ends as the last report did, or in `Continue` where
    /// there is no child.
    fn apply_children<F: FnMut(&Self) -> Result<TreeNodeRecursion, TraversalError>>(
        &self,
        f: &mut F,
    ) -> (r: Result<TreeNodeRecursion, TraversalError>)
        requires
            forall|m: Self| call_requires(*old(f), (&m,)),
        ensures
            exists|outs: Seq<Signal>|
                can_report_on_children::<Self>(
                    reports_of::<Self, F>(*old(f)),
                    self.model(),
                    outs,
                ) && signal_model(r) == #[trigger] last_signal(outs),
    {
        let ghost tree = self.model();
        let ghost kids = Self::subtrees(tree);
        let ghost reports = reports_of::<Self, F>(*f);
        let children = self.child_nodes();
        let ghost mut outs: Seq<Signal> = Seq::empty();
        let mut tnr = TreeNodeRecursion::Continue;
        let mut i: usize = 0;
        while i < children.len()
            invariant
                i <= children.len(),
                tree == self.model(),
                kids == Self::subtrees(tree),
                children@.len() == kids.len(),
                forall|j: int|
                    0 <= j < children@.len() ==> children@[j].node().model() == kids[j],
                *f == *old(f),
                reports == reports_of::<Self, F>(*old(f)),
                forall|m: Self| call_requires(*f, (&m,)),
                outs.len() == i,
                forall|j: int| 0 <= j < outs.len() ==> walks_on(#[trigger] outs[j]),
                forall|j: int| 0 <= j < outs.len() ==> reports(kids[j], #[trigger] outs[j]),
                Ok::<TreeNodeRecursion, Failure>(tnr) == last_signal(outs),
            decreases children.len() - i,
        {
            let out = f(children[i].get());
            proof {
                assert(reports(kids[i as int], signal_model(out)));
                outs = outs.push(signal_model(out));
            }
            match out {
                Ok(TreeNodeRecursion::Stop) => {
                    proof {
                        assert(can_report_on_children::<Self>(reports, tree, outs));
                        assert(last_signal(outs) == signal_model(out));
                    }
                    return Ok(TreeNodeRecursion::Stop);
                },
                Ok(reported) => {
                    tnr = reported;
                },
                Err(e) => {
                    proof {
                        assert(can_report_on_children::<Self>(reports, tree, outs));
                        assert(last_signal(outs) == signal_model(out));
                    }
                    return Err(e);
                },
            }
            i += 1;
        }
        proof {
            assert(can_report_on_children::<Self>(reports, tree, outs));
        }
        Ok(tnr)
    }

    /// Runs `f` on the children in order until one ends in `Stop`, and
    /// builds the node again around what `f` made of those and, unchanged,
    /// the children after them. A failure of `f` ends it at once. A node
    /// without children is handed back unchanged.
    fn map_children<F: FnMut(Self) -> Result<Transformed<Self>, TraversalError>>(self, f: F) -> (r:
        Result<Transformed<Self>, TraversalError>)
        requires
            forall|m: Self| call_requires(f, (m,)),
        ensures
            exists|outs: Seq<Outcome<Self::Model>>|
                can_return_on_children::<Self>(returns_of::<Self, F>(f), self.model(), outs)
                    && outcome_model(r) == #[trigger] rebuild::<Self>(self.model(), outs),
    {
        broadcast use vstd::std_specs::vec::axiom_spec_into_iter;

        let ghost tree = self.model();
        let ghost allowed = returns_of::<Self, F>(f);
        let (new_self, children) = self.detach();
        let ghost kids = children@;
        proof {
            assert(models_of(kids) =~= Self::subtrees(tree));
        }
        if !children.is_empty() {
            let siblings = children.into_iter();
            assert(siblings.remaining() == kids);
            let collected = siblings.map_until_stop_and_collect(f);
            let ghost made = choose|made: Seq<Result<Transformed<Self>, TraversalError>>|
                outcomes_of(f, kids, made) && with_seq(collected) == gather(kids, made);
            let ghost outs = outcome_models(made);
            proof {
                lemma_gather_models(kids, made);
                assert forall|k: int| 0 <= k < outs.len() implies allowed(
                    Self::subtrees(tree)[k],
                    #[trigger] outs[k],
                ) by {
                    assert(call_ensures(f, (kids[k],), made[k]));
                    assert(models_of(kids)[k] == kids[k].model());
                }
                assert(can_return_on_children::<Self>(allowed, tree, outs));
            }
            let new_children = match collected {
                Ok(t) => t,
                Err(e) => {
                    proof {
                        assert(rebuild::<Self>(tree, outs) == Err::<
                            Transformed<Self::Model>,
                            Failure,
                        >(e@));
                    }
                    return Err(e);
                },
            };
            let changed = new_children.transformed;
            let tnr = new_children.tnr;
            let ghost trees = models_of(new_children.data@);
            proof {
                assert(trees =~= Seq::new(
                    new_children.data@.len(),
                    |i: int| new_children.data@[i].model(),
                ));
            }
            match new_self.attach(new_children.data, changed) {
                Ok(data) => {
                    proof {
                        assert(rebuild::<Self>(tree, outs) == Ok::<
                            Transformed<Self::Model>,
                            Failure,
                        >(Transformed { data: data.model(), transformed: changed, tnr }));
                    }
                    Ok(Transformed::new(data, changed, tnr))
                },
                Err(e) => {
                    proof {
                        assert(rebuild::<Self>(tree, outs) == Err::<
                            Transformed<Self::Model>,
                            Failure,
                        >(e@));
                    }
                    Err(e)
                },
            }
        } else {
            proof {
                let none = Seq::<Outcome<Self::Model>>::empty();
                assert(can_return_on_children::<Self>(allowed, tree, none));
                assert(rebuild::<Self>(tree, none) == Ok::<Transformed<Self::Model>, Failure>(
                    Transformed {
                        data: new_self.model(),
                        transformed: false,
                        tnr: TreeNodeRecursion::Continue,
                    },
                ));
            }
            Ok(Transformed::no(new_self))
        }
    }
}

impl<T: TreeStructure> TreeNode for T {
}

} // verus!
