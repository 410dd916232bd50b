//! Rewriting siblings one after the other.

use vstd::prelude::*;
use vstd::std_specs::iter::IteratorSpec;
use crate::error::TraversalError;
use crate::recursion::TreeNodeRecursion;
use crate::transformed::Transformed;

verus! {

/// After this outcome the step runs on the next sibling too: it is no
/// failure and no `Stop`.
pub open spec fn goes_on<T, E>(out: Result<Transformed<T>, E>) -> bool {
    out matches Ok(t) && !(t.tnr is Stop)
}

/// `outs` can be the outcomes of a step that runs on `count` siblings in
/// order, `outs[i]` on sibling `i`: it runs on the next sibling as long as
/// the last outcome `goes_on`, and on none after that.
pub open spec fn is_run<T, E>(outs: Seq<Result<Transformed<T>, E>>, count: nat) -> bool {
    &&& outs.len() <= count
    &&& forall|i: int| 0 <= i < outs.len() - 1 ==> goes_on(#[trigger] outs[i])
    &&& outs.len() < count ==> outs.len() > 0 && !goes_on(outs.last())
}

/// The outcome `outs[i]` reports a change.
pub open spec fn changed_at<T, E>(outs: Seq<Result<Transformed<T>, E>>, i: int) -> bool {
    outs[i] matches Ok(t) && t.transformed
}

/// What becomes of the siblings `items` when the step has run on the first
/// of them with the outcomes `outs`:
/// - a failure is handed on;
/// - else each sibling that the step ran on is replaced by what the step
///   made of it, and the others stay as they are; the flag is set if any
///   outcome sets it; the signal is that of the last outcome, or `Continue`
///   where there is none.
pub open spec fn gather<T, E>(items: Seq<T>, outs: Seq<Result<Transformed<T>, E>>) -> Result<
    Transformed<Seq<T>>,
    E,
>
    recommends
        is_run(outs, items.len()),
{
    if outs.len() > 0 && outs.last() is Err {
        Err(outs.last()->Err_0)
    } else {
        Ok(
            Transformed {
                data: Seq::new(
                    items.len(),
                    |i: int|
                        if i < outs.len() {
                            outs[i]->Ok_0.data
                        } else {
                            items[i]
                        },
                ),
                transformed: exists|i: int| 0 <= i < outs.len() && changed_at(outs, i),
                tnr: if outs.len() == 0 {
                    TreeNodeRecursion::Continue
                } else {
                    outs.last()->Ok_0.tnr
                },
            },
        )
    }
}

/// The outcome `r`, with the sequence that its vector holds in the
/// vector's place.
pub open spec fn with_seq<T>(r: Result<Transformed<Vec<T>>, TraversalError>) -> Result<
    Transformed<Seq<T>>,
    TraversalError,
> {
    match r {
        Ok(t) => Ok(Transformed { data: t.data@, transformed: t.transformed, tnr: t.tnr }),
        Err(e) => Err(e),
    }
}

/// The step `f` can have given the outcomes `outs` on the first of `items`.
pub open spec fn outcomes_of<T, F: FnOnce(T) -> Result<Transformed<T>, TraversalError>>(
    f: F,
    items: Seq<T>,
    outs: Seq<Result<Transformed<T>, TraversalError>>,
) -> bool {
    &&& is_run(outs, items.len())
    &&& forall|i: int| 0 <= i < outs.len() ==> call_ensures(f, (items[i],), #[trigger] outs[i])
}

/// Every outcome in `outs` is a success.
pub open spec fn all_ok<T, E>(outs: Seq<Result<Transformed<T>, E>>) -> bool {
    forall|i: int| 0 <= i < outs.len() ==> (#[trigger] outs[i]) is Ok
}

/// One more sibling on which the step ran: its data is appended, its flag
/// is added, and its signal takes the place of the one before.
pub proof fn lemma_gather_step<T, E>(
    items: Seq<T>,
    outs: Seq<Result<Transformed<T>, E>>,
    out: Transformed<T>,
)
    requires
        outs.len() < items.len(),
        all_ok(outs),
    ensures
        all_ok(outs.push(Ok(out))),
        gather(items.take(outs.len() as int + 1), outs.push(Ok(out))) matches Ok(longer) && gather(
            items.take(outs.len() as int),
            outs,
        ) matches Ok(shorter) && longer.data == shorter.data.push(out.data) && longer.transformed
            == (shorter.transformed || out.transformed) && longer.tnr == out.tnr,
{
    let more = outs.push(Ok(out));
    let longer = gather(items.take(outs.len() as int + 1), more)->Ok_0;
    let shorter = gather(items.take(outs.len() as int), outs)->Ok_0;
    assert(more.last() == Ok::<Transformed<T>, E>(out));
    assert(longer.data =~= shorter.data.push(out.data));
    assert(forall|i: int| 0 <= i < outs.len() ==> changed_at(outs, i) == changed_at(more, i));
    assert(changed_at(more, outs.len() as int) == out.transformed);
}

/// One more sibling on which the step did not run: it is appended as it is.
pub proof fn lemma_gather_keep<T, E>(
    items: Seq<T>,
    outs: Seq<Result<Transformed<T>, E>>,
    count: int,
)
    requires
        0 < outs.len() <= count < items.len(),
        all_ok(outs),
    ensures
        gather(items.take(count + 1), outs) matches Ok(longer) && gather(
            items.take(count),
            outs,
        ) matches Ok(shorter) && longer.data == shorter.data.push(items[count])
            && longer.transformed == shorter.transformed && longer.tnr == shorter.tnr,
{
    let longer = gather(items.take(count + 1), outs)->Ok_0;
    let shorter = gather(items.take(count), outs)->Ok_0;
    assert(longer.data =~= shorter.data.push(items[count]));
}

/// Before the first sibling nothing is gathered.
pub proof fn lemma_gather_none<T, E>(items: Seq<T>)
    ensures
        gather(items.take(0), Seq::<Result<Transformed<T>, E>>::empty()) == Ok::<
            Transformed<Seq<T>>,
            E,
        >(
            Transformed {
                data: Seq::empty(),
                transformed: false,
                tnr: TreeNodeRecursion::Continue,
            },
        ),
{
    let g = gather(items.take(0), Seq::<Result<Transformed<T>, E>>::empty())->Ok_0;
    assert(g.data =~= Seq::<T>::empty());
}

/// Rewrites siblings one after the other.
pub trait TransformedIterator: Iterator {
    /// Runs `f` on each item in order until one ends in `Stop`, and
    /// collects what `f` made of those and, unchanged, the items after
    /// them. A failure of `f` ends it at once.
    fn map_until_stop_and_collect<
        F: FnMut(Self::Item) -> Result<Transformed<Self::Item>, TraversalError>,
    >(self, f: F) -> (r: Result<Transformed<Vec<Self::Item>>, TraversalError>)
        requires
            self.obeys_prophetic_iter_laws(),
            self.decrease() is Some,
            forall|item: Self::Item| call_requires(f, (item,)),
        ensures
            exists|outs: Seq<Result<Transformed<Self::Item>, TraversalError>>|
                outcomes_of(f, self.remaining(), outs) && with_seq(r) == gather(
                    self.remaining(),
                    outs,
                ),
    ;
}

impl<I: Iterator> TransformedIterator for I {
    fn map_until_stop_and_collect<
        F: FnMut(Self::Item) -> Result<Transformed<Self::Item>, TraversalError>,
    >(self, f: F) -> (r: Result<Transformed<Vec<Self::Item>>, TraversalError>) {
        let mut step = f;
        let mut iter = self;
        let mut tnr = TreeNodeRecursion::Continue;
        let mut transformed = false;
        let mut data: Vec<Self::Item> = Vec::new();
        let ghost items = self.remaining();
        let ghost mut outs: Seq<Result<Transformed<Self::Item>, TraversalError>> = Seq::empty();
        proof {
            lemma_gather_none::<Self::Item, TraversalError>(items);
        }
        loop
            invariant
                step == f,
                items == self.remaining(),
                forall|item: Self::Item| call_requires(f, (item,)),
                iter.obeys_prophetic_iter_laws(),
                iter.decrease() is Some,
                outs.len() <= data@.len() <= items.len(),
                iter.remaining() == items.skip(data@.len() as int),
                all_ok(outs),
                outcomes_of(f, items.take(data@.len() as int), outs),
                gather(items.take(data@.len() as int), outs) == Ok::<
                    Transformed<Seq<Self::Item>>,
                    TraversalError,
                >(Transformed { data: data@, transformed, tnr }),
            ensures
                data@.len() == items.len(),
            decreases iter.decrease()->0,
        {
            match iter.next() {
                None => {
                    break ;
                },
                Some(item) => {
                    assert(item == items[data@.len() as int]);
                    let ghost seen = items.take(data@.len() as int);
                    let ghost next = items.take(data@.len() as int + 1);
                    assert(forall|i: int| 0 <= i < seen.len() ==> seen[i] == next[i]);
                    match tnr {
                        TreeNodeRecursion::Stop => {
                            proof {
                                lemma_gather_keep(items, outs, data@.len() as int);
                            }
                            data.push(item);
                        },
                        _ => {
                            let out = step(item);
                            match out {
                                Err(e) => {
                                    proof {
                                        let ghost ran = outs;
                                        assert(ran.len() == data@.len()) by {
                                            if ran.len() < data@.len() {
                                                assert(!goes_on(ran.last()));
                                            }
                                        }
                                        outs = ran.push(out);
                                        assert forall|i: int| 0 <= i < outs.len() implies call_ensures(
                                            f,
                                            (items[i],),
                                            #[trigger] outs[i],
                                        ) by {
                                            if i < ran.len() {
                                                assert(outs[i] == ran[i]);
                                                assert(seen[i] == items[i]);
                                            }
                                        }
                                        assert forall|i: int| 0 <= i < outs.len() - 1 implies goes_on(
                                            #[trigger] outs[i],
                                        ) by {
                                            assert(outs[i] == ran[i]);
                                            if i == ran.len() - 1 {
                                                assert(ran[i] == ran.last());
                                            }
                                        }
                                        assert(outs.last() == out);
                                        assert(outcomes_of(f, items, outs));
                                        assert(gather(items, outs) == Err::<
                                            Transformed<Seq<Self::Item>>,
                                            TraversalError,
                                        >(e));
                                    }
                                    return Err(e);
                                },
                                Ok(t) => {
                                    proof {
                                        lemma_gather_step(items, outs, t);
                                        outs = outs.push(out);
                                    }
                                    tnr = t.tnr;
                                    transformed = transformed || t.transformed;
                                    data.push(t.data);
                                },
                            }
                        },
                    }
                },
            }
        }
        proof {
            assert(items.take(items.len() as int) =~= items);
        }
        Ok(Transformed::new(data, transformed, tnr))
    }
}

} // verus!
