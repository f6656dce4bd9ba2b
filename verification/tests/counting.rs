use counter::Counter;

#[test]
fn it_works() {}

#[test]
fn init_tallies_each_occurrence() {
    let data = vec!['a', 'b', 'c', 'a'];
    let c = Counter::init(&data);
    assert_eq!(c.count(&'a'), 2);
    assert_eq!(c.count(&'b'), 1);
    assert_eq!(c.count(&'c'), 1);
}

#[test]
fn absent_element_counts_zero() {
    let data = vec!['a', 'b', 'c', 'a'];
    let c = Counter::init(&data);
    assert_eq!(c.count(&'z'), 0);
    assert_eq!(c.count(&'d'), 0);
}

#[test]
fn most_common_ranks_by_descending_count() {
    let data = vec!['a', 'b', 'c', 'a'];
    let c = Counter::init(&data);
    // Ties are broken by ascending element, so the ranking is deterministic.
    assert_eq!(c.most_common(), vec![('a', 2), ('b', 1), ('c', 1)]);
}

#[test]
fn most_common_totals_the_input_length() {
    let data = vec![4u64, 7, 4, 9, 7, 4, 1];
    let c = Counter::init(&data);
    let total: usize = c.most_common().iter().map(|p| p.1).sum();
    assert_eq!(total, data.len());
}

#[test]
fn most_common_twice_yields_the_same_ranking() {
    let data = vec!['r', 's', 's', 't', 'r', 's'];
    let c = Counter::init(&data);
    let first = c.most_common();
    let second = c.most_common();
    assert_eq!(first, second);
    assert_eq!(first, vec![('s', 3), ('r', 2), ('t', 1)]);
}

#[test]
fn sum_accumulates_counts() {
    let a = Counter::init(&vec!['a', 'a', 'b']);
    let b = Counter::init(&vec!['a', 'b', 'b']);
    let sum = a.add(&b);
    assert_eq!(sum.count(&'a'), 3);
    assert_eq!(sum.count(&'b'), 3);
    assert_eq!(sum.most_common().len(), 2);
}

#[test]
fn difference_clamps_and_drops() {
    let a = Counter::init(&vec!['a', 'a', 'b']);
    let b = Counter::init(&vec!['a', 'b', 'b']);
    let diff = a.sub(&b);
    // b's count would be 1 - 2: clamped to zero and dropped.
    assert_eq!(diff.count(&'a'), 1);
    assert_eq!(diff.count(&'b'), 0);
    assert_eq!(diff.most_common(), vec![('a', 1)]);
}

#[test]
fn intersection_takes_the_minimum() {
    let a = Counter::init(&vec!['a', 'a', 'b']);
    let b = Counter::init(&vec!['a', 'b', 'b']);
    let both = a.bitand(&b);
    assert_eq!(both.count(&'a'), 1);
    assert_eq!(both.count(&'b'), 1);
    assert_eq!(both.most_common(), vec![('a', 1), ('b', 1)]);
}

#[test]
fn union_takes_the_maximum() {
    let a = Counter::init(&vec!['a', 'a', 'b']);
    let b = Counter::init(&vec!['a', 'b', 'b']);
    let either = a.bitor(&b);
    assert_eq!(either.count(&'a'), 2);
    assert_eq!(either.count(&'b'), 2);
    assert_eq!(either.most_common(), vec![('a', 2), ('b', 2)]);
}

#[test]
fn update_twice_doubles_every_count() {
    let data = vec!['x', 'y', 'x'];
    let mut once = Counter::new();
    once.update(&data);
    let mut twice = Counter::new();
    twice.update(&data);
    twice.update(&data);
    assert_eq!(twice.count(&'x'), 2 * once.count(&'x'));
    assert_eq!(twice.count(&'y'), 2 * once.count(&'y'));
    assert_eq!(twice.count(&'x'), 4);
    assert_eq!(twice.count(&'y'), 2);
}

#[test]
fn sum_and_union_and_intersection_commute() {
    let a = Counter::init(&vec![1u64, 1, 2, 5]);
    let b = Counter::init(&vec![2u64, 2, 5, 8]);
    assert_eq!(a.add(&b).most_common(), b.add(&a).most_common());
    assert_eq!(a.bitor(&b).most_common(), b.bitor(&a).most_common());
    assert_eq!(a.bitand(&b).most_common(), b.bitand(&a).most_common());
}

#[test]
fn difference_is_not_commutative_here() {
    let a = Counter::init(&vec!['a', 'a', 'b']);
    let b = Counter::init(&vec!['a', 'b', 'b']);
    assert_eq!(a.sub(&b).most_common(), vec![('a', 1)]);
    assert_eq!(b.sub(&a).most_common(), vec![('b', 1)]);
}

#[test]
fn subtract_clamps_at_zero_and_keeps_entries() {
    let mut c = Counter::init(&vec!['a']);
    c.subtract(&vec!['a', 'a', 'b']);
    assert_eq!(c.count(&'a'), 0);
    assert_eq!(c.count(&'b'), 0);
    // Entries that fell to zero stay stored, ranked after positive ones and
    // tied entries ordered by element.
    assert_eq!(c.most_common(), vec![('a', 0), ('b', 0)]);
}

#[test]
fn subtract_decrements_present_counts() {
    let mut c = Counter::init(&vec![3i64, 3, 3, -1]);
    c.subtract(&vec![3i64]);
    assert_eq!(c.count(&3), 2);
    assert_eq!(c.count(&-1), 1);
    assert_eq!(c.most_common(), vec![(3, 2), (-1, 1)]);
}

#[test]
fn empty_counters_combine_to_empty() {
    let a = Counter::<char>::new();
    let b = Counter::<char>::new();
    assert_eq!(a.count(&'a'), 0);
    assert_eq!(a.most_common(), vec![]);
    assert_eq!(a.add(&b).most_common(), vec![]);
    assert_eq!(a.sub(&b).most_common(), vec![]);
    assert_eq!(a.bitand(&b).most_common(), vec![]);
    assert_eq!(a.bitor(&b).most_common(), vec![]);
}

#[test]
fn counting_an_empty_sequence_succeeds() {
    let c = Counter::<u64>::init(&vec![]);
    assert_eq!(c.count(&0), 0);
    assert_eq!(c.most_common(), vec![]);
}

#[test]
fn subtracting_from_an_empty_counter_succeeds() {
    let mut c = Counter::<usize>::new();
    c.subtract(&vec![10usize, 20]);
    assert_eq!(c.count(&10), 0);
    assert_eq!(c.count(&20), 0);
    assert_eq!(c.most_common(), vec![(10, 0), (20, 0)]);
}

#[test]
fn update_accumulates_onto_existing_counts() {
    let mut c = Counter::init(&vec!['p', 'q']);
    c.update(&vec!['q', 'q', 'r']);
    assert_eq!(c.count(&'p'), 1);
    assert_eq!(c.count(&'q'), 3);
    assert_eq!(c.count(&'r'), 1);
    assert_eq!(c.most_common(), vec![('q', 3), ('p', 1), ('r', 1)]);
}
