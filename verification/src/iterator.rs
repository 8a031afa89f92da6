//! A series of iterators of the same type that are traversed in a row.

use vstd::prelude::*;
use vstd::std_specs::iter::IteratorSpec;

verus! {

/// Iterators of one type, traversed one after the other, the last one of
/// the series first. Every item of every iterator comes out once; an
/// iterator without items is passed over.
pub struct ChainedIterator<I: Iterator> {
    pub current_iter: Option<I>,
    pub iterators: Vec<I>,
}

/// The items of a chain in the order in which it yields them: those of the
/// current iterator, then those of the waiting ones, the last one first.
pub open spec fn chained_items<T>(current: Seq<T>, waiting: Seq<Seq<T>>) -> Seq<T>
    decreases waiting.len(),
{
    if waiting.len() == 0 {
        current
    } else {
        chained_items(current + waiting.last(), waiting.drop_last())
    }
}

/// The items of a chain are those of its current iterator followed by
/// those of a chain over the waiting iterators alone.
pub proof fn lemma_chained_items_split<T>(current: Seq<T>, waiting: Seq<Seq<T>>)
    ensures
        chained_items(current, waiting) == current + chained_items(Seq::empty(), waiting),
    decreases waiting.len(),
{
    if waiting.len() == 0 {
        assert(current + Seq::<T>::empty() =~= current);
    } else {
        lemma_chained_items_split(current + waiting.last(), waiting.drop_last());
        lemma_chained_items_split(Seq::empty() + waiting.last(), waiting.drop_last());
        assert(Seq::<T>::empty() + waiting.last() =~= waiting.last());
        assert((current + waiting.last()) + chained_items(Seq::empty(), waiting.drop_last())
            =~= current + (waiting.last() + chained_items(Seq::empty(), waiting.drop_last())));
    }
}

/// Waiting iterators without items, at the end of the series, add nothing
/// to a chain.
pub proof fn lemma_chained_items_skip<T>(waiting: Seq<Seq<T>>, n: int)
    requires
        0 <= n <= waiting.len(),
        forall|j: int| n <= j < waiting.len() ==> (#[trigger] waiting[j]).len() == 0,
    ensures
        chained_items(Seq::empty(), waiting) == chained_items(Seq::empty(), waiting.take(n)),
    decreases waiting.len() - n,
{
    if n == waiting.len() {
        assert(waiting.take(n) =~= waiting);
    } else {
        assert(waiting.last().len() == 0);
        assert(Seq::<T>::empty() + waiting.last() =~= Seq::<T>::empty());
        lemma_chained_items_skip(waiting.drop_last(), n);
        assert(waiting.drop_last().take(n) =~= waiting.take(n));
    }
}

impl<I: Iterator> ChainedIterator<I> {
    /// A chain over `iterators`. The last one becomes the current iterator;
    /// the others wait in their order. The chain will yield the items of
    /// all of them, those of the last iterator first.
    pub fn new(iterators: Vec<I>) -> (chain: Self)
        ensures
            iterators@.len() == 0 ==> chain.current_iter is None && chain.iterators@
                == iterators@,
            iterators@.len() > 0 ==> chain.current_iter == Some(iterators@.last())
                && chain.iterators@ == iterators@.drop_last(),
            iterators@.len() > 0 ==> chained_items(
                chain.current_iter->0.remaining(),
                Seq::new(chain.iterators@.len(), |j: int| chain.iterators@[j].remaining()),
            ) == chained_items(
                Seq::empty(),
                Seq::new(iterators@.len(), |j: int| iterators@[j].remaining()),
            ),
    {
        let ghost given = iterators@;
        let mut iterators = iterators;
        let current_iter = iterators.pop();
        proof {
            if given.len() > 0 {
                let all = Seq::new(given.len(), |j: int| given[j].remaining());
                let kept = Seq::new(iterators@.len(), |j: int| iterators@[j].remaining());
                assert(all.drop_last() =~= kept);
                assert(Seq::<I::Item>::empty() + all.last() =~= given.last().remaining());
            }
        }
        Self { current_iter, iterators }
    }

    /// Advances the chain and returns the next value.
    ///
    /// While the current iterator has items, the chain hands out its next
    /// one. When it has none, the chain drops it and goes through the
    /// waiting iterators, the last one first, dropping every one that has
    /// nothing to give, until one gives an item; that one becomes the
    /// current iterator. `None` comes only when no iterator has an item
    /// left, and the chain then holds no iterator at all.
    ///
    /// Over all calls, where the iterators keep to the laws of iterators:
    /// each call hands out the first of `chained_items` and leaves a chain
    /// of the others, so every item of every iterator comes out exactly
    /// once, the items of one iterator in a row and in their own order.
    pub fn next(&mut self) -> (item: Option<I::Item>)
        ensures
            match old(self).current_iter {
                None => item is None && *final(self) == *old(self),
                Some(current) => current.obeys_prophetic_iter_laws() ==> {
                    if current.remaining().len() > 0 {
                        &&& item == Some(current.remaining()[0])
                        &&& final(self).current_iter is Some
                        &&& final(self).current_iter->0.remaining()
                            == current.remaining().drop_first()
                        &&& final(self).iterators@ == old(self).iterators@
                    } else {
                        let n = final(self).iterators@.len() as int;
                        &&& n <= old(self).iterators@.len()
                        &&& final(self).iterators@ == old(self).iterators@.take(n)
                        &&& (forall|j: int|
                            0 <= j < old(self).iterators@.len() ==> (
                            #[trigger] old(self).iterators@[j]).obeys_prophetic_iter_laws()) ==> {
                            &&& forall|j: int|
                                n < j < old(self).iterators@.len() ==> (
                                #[trigger] old(self).iterators@[j]).remaining().len() == 0
                            &&& match item {
                                Some(x) => {
                                    &&& n < old(self).iterators@.len()
                                    &&& old(self).iterators@[n].remaining().len() > 0
                                    &&& x == old(self).iterators@[n].remaining()[0]
                                    &&& final(self).current_iter is Some
                                    &&& final(self).current_iter->0.remaining() == old(
                                        self,
                                    ).iterators@[n].remaining().drop_first()
                                },
                                None => {
                                    &&& n == 0
                                    &&& final(self).current_iter is None
                                    &&& forall|j: int|
                                        0 <= j < old(self).iterators@.len() ==> (
                                        #[trigger] old(self).iterators@[j]).remaining().len() == 0
                                },
                            }
                        }
                    }
                },
            },
            old(self).current_iter matches Some(current) ==> (current.obeys_prophetic_iter_laws()
                && forall|j: int|
                0 <= j < old(self).iterators@.len() ==> (
                #[trigger] old(self).iterators@[j]).obeys_prophetic_iter_laws()) ==> {
                let before = chained_items(
                    current.remaining(),
                    Seq::new(
                        old(self).iterators@.len(),
                        |j: int| old(self).iterators@[j].remaining(),
                    ),
                );
                match item {
                    Some(x) => {
                        &&& before.len() > 0
                        &&& x == before[0]
                        &&& final(self).current_iter is Some
                        &&& chained_items(
                            final(self).current_iter->0.remaining(),
                            Seq::new(
                                final(self).iterators@.len(),
                                |j: int| final(self).iterators@[j].remaining(),
                            ),
                        ) == before.drop_first()
                    },
                    None => {
                        &&& before.len() == 0
                        &&& final(self).current_iter is None
                        &&& final(self).iterators@.len() == 0
                    },
                }
            },
    {
        match &mut self.current_iter {
            Some(iter) => match iter.next() {
                None => {
                    // Chain the iterators together.
                    // If the end of one iterator is reached go to the next that has an item.
                    loop
                        invariant
                            old(self).current_iter is Some,
                            old(self).current_iter->0.obeys_prophetic_iter_laws() ==> old(
                                self,
                            ).current_iter->0.remaining().len() == 0,
                            self.iterators@.len() <= old(self).iterators@.len(),
                            self.iterators@ == old(self).iterators@.take(
                                self.iterators@.len() as int,
                            ),
                            (forall|j: int|
                                0 <= j < old(self).iterators@.len() ==> (
                                #[trigger] old(self).iterators@[j]).obeys_prophetic_iter_laws())
                                ==> forall|j: int|
                                self.iterators@.len() <= j < old(self).iterators@.len() ==> (
                                #[trigger] old(self).iterators@[j]).remaining().len() == 0,
                        decreases self.iterators@.len(),
                    {
                        let ghost waiting = self.iterators@;
                        match self.iterators.pop() {
                            Some(following) => {
                                let mut following = following;
                                assert(following == old(self).iterators@[waiting.len() - 1]);
                                assert(self.iterators@ =~= old(self).iterators@.take(
                                    waiting.len() - 1,
                                ));
                                let item = following.next();
                                if item.is_some() {
                                    proof {
                                        let n = waiting.len() - 1;
                                        let all = Seq::new(
                                            old(self).iterators@.len(),
                                            |j: int| old(self).iterators@[j].remaining(),
                                        );
                                        let kept = Seq::new(
                                            self.iterators@.len(),
                                            |j: int| self.iterators@[j].remaining(),
                                        );
                                        if forall|j: int|
                                            0 <= j < old(self).iterators@.len() ==> (
                                            #[trigger] old(self).iterators@[j]).obeys_prophetic_iter_laws() {
                                            assert(old(self).iterators@[n].obeys_prophetic_iter_laws());
                                            assert forall|j: int|
                                                n + 1 <= j < all.len() implies (
                                            #[trigger] all[j]).len() == 0 by {
                                                assert(old(self).iterators@[j].remaining().len()
                                                    == 0);
                                            }
                                            lemma_chained_items_skip(all, n + 1);
                                            assert(all.take(n + 1).drop_last() =~= kept);
                                            assert(all.take(n + 1).last() == all[n]);
                                            assert(Seq::<I::Item>::empty() + all[n] =~= all[n]);
                                            lemma_chained_items_split(all[n], kept);
                                            lemma_chained_items_split(following.remaining(), kept);
                                            lemma_chained_items_split(
                                                old(self).current_iter->0.remaining(),
                                                all,
                                            );
                                            assert((all[n] + chained_items(
                                                Seq::empty(),
                                                kept,
                                            )).drop_first() =~= all[n].drop_first()
                                                + chained_items(Seq::empty(), kept));
                                        }
                                    }
                                    self.current_iter = Some(following);
                                    return item;
                                }
                            },
                            None => {
                                proof {
                                    let all = Seq::new(
                                        old(self).iterators@.len(),
                                        |j: int| old(self).iterators@[j].remaining(),
                                    );
                                    if forall|j: int|
                                        0 <= j < old(self).iterators@.len() ==> (
                                        #[trigger] old(self).iterators@[j]).obeys_prophetic_iter_laws() {
                                        assert forall|j: int| 0 <= j < all.len() implies (
                                        #[trigger] all[j]).len() == 0 by {
                                            assert(old(self).iterators@[j].remaining().len() == 0);
                                        }
                                        lemma_chained_items_skip(all, 0);
                                        lemma_chained_items_split(
                                            old(self).current_iter->0.remaining(),
                                            all,
                                        );
                                    }
                                }
                                self.current_iter = None;
                                return None;
                            },
                        }
                    }
                },
                item => {
                    proof {
                        let all = Seq::new(
                            old(self).iterators@.len(),
                            |j: int| old(self).iterators@[j].remaining(),
                        );
                        lemma_chained_items_split(old(self).current_iter->0.remaining(), all);
                        lemma_chained_items_split((*iter).remaining(), all);
                        if old(self).current_iter->0.obeys_prophetic_iter_laws() {
                            let first = old(self).current_iter->0.remaining();
                            assert(first.len() > 0);
                            assert((*iter).remaining() == first.drop_first());
                            assert((first + chained_items(Seq::empty(), all))[0] == first[0]);
                            assert((first + chained_items(Seq::empty(), all)).drop_first()
                                =~= first.drop_first() + chained_items(Seq::empty(), all));
                        }
                    }
                    item
                },
            },
            None => None,
        }
    }
}

} // verus!
