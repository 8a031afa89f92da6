use archetype_ecs::iterator::ChainedIterator;

fn drain(chain: &mut ChainedIterator<std::vec::IntoIter<i32>>, calls: usize) -> Vec<Option<i32>> {
    let mut seen = Vec::new();
    for _ in 0..calls {
        seen.push(chain.next());
    }
    seen
}

#[test]
fn chain_starts_with_the_last_iterator() {
    let mut chain = ChainedIterator::new(vec![vec![1, 2].into_iter(), vec![3].into_iter()]);
    assert_eq!(drain(&mut chain, 5), vec![Some(3), Some(1), Some(2), None, None]);
}

#[test]
fn chain_over_nothing_is_at_its_end() {
    let mut chain: ChainedIterator<std::vec::IntoIter<i32>> = ChainedIterator::new(Vec::new());
    assert!(chain.current_iter.is_none());
    assert_eq!(drain(&mut chain, 2), vec![None, None]);
}

#[test]
fn chain_passes_over_empty_iterators() {
    let mut chain = ChainedIterator::new(vec![
        vec![1, 2].into_iter(),
        Vec::new().into_iter(),
        vec![3].into_iter(),
    ]);
    assert_eq!(
        drain(&mut chain, 6),
        vec![Some(3), Some(1), Some(2), None, None, None]
    );
}

#[test]
fn empty_iterator_hides_nothing() {
    let mut chain = ChainedIterator::new(vec![
        vec![1].into_iter(),
        Vec::new().into_iter(),
        vec![2].into_iter(),
    ]);
    let mut seen = Vec::new();
    while let Some(item) = chain.next() {
        seen.push(item);
    }
    assert_eq!(seen, vec![2, 1]);
    assert!(chain.current_iter.is_none());
    assert!(chain.iterators.is_empty());
}

#[test]
fn chain_of_empty_iterators_ends_at_once() {
    let mut chain: ChainedIterator<std::vec::IntoIter<i32>> = ChainedIterator::new(vec![
        Vec::new().into_iter(),
        Vec::new().into_iter(),
        Vec::new().into_iter(),
    ]);
    assert_eq!(chain.next(), None);
    assert!(chain.current_iter.is_none());
    assert!(chain.iterators.is_empty());
    assert_eq!(chain.next(), None);
}

#[test]
fn chain_keeps_the_order_within_each_iterator() {
    let mut chain = ChainedIterator::new(vec![
        Vec::new().into_iter(),
        vec![1, 2, 3].into_iter(),
        Vec::new().into_iter(),
        Vec::new().into_iter(),
        vec![4, 5].into_iter(),
        Vec::new().into_iter(),
    ]);
    assert_eq!(
        drain(&mut chain, 7),
        vec![Some(4), Some(5), Some(1), Some(2), Some(3), None, None]
    );
}

#[test]
fn new_splits_off_the_current_iterator() {
    let chain = ChainedIterator::new(vec![vec![1].into_iter(), vec![2, 3].into_iter()]);
    assert_eq!(chain.iterators.len(), 1);
    assert_eq!(chain.current_iter.unwrap().collect::<Vec<i32>>(), vec![2, 3]);
}
